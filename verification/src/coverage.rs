//! Coverage records read from one line-oriented coverage report.
//!
//! A report line has the shape `<marker>:<line number>:<statement>`. Only the
//! first two colons separate fields; every later colon belongs to the
//! statement.

use vstd::prelude::*;

verus! {

/// Whether a source line ran during one test execution.
#[derive(Debug, Clone, Copy, PartialEq, Eq, PartialOrd, Structural)]
pub enum Coverage {
    Covered,
    NotCovered,
    NoExecutableCode,
}

/// One source line of one coverage report.
#[derive(Debug)]
pub struct LineInfo {
    pub line_number: u32,
    pub statement: String,
    pub coverage: Coverage,
}

/// The mathematical value of a [`LineInfo`].
pub struct LineRecord {
    pub line_number: u32,
    pub statement: Seq<char>,
    pub coverage: Coverage,
}

impl View for LineInfo {
    type V = LineRecord;

    open spec fn view(&self) -> LineRecord {
        LineRecord {
            line_number: self.line_number,
            statement: self.statement@,
            coverage: self.coverage,
        }
    }
}

/// Why a report line could not be read.
#[derive(Debug, Clone, Copy, PartialEq, Eq, Structural)]
pub enum ParseError {
    /// The line holds no `:` at all, so it has no line-number field.
    MissingLineNumber,
    /// The line-number field is not a decimal number that fits in 32 bits.
    InvalidLineNumber,
}

/// Whether `c` carries Unicode's `White_Space` property.
pub open spec fn is_space(c: char) -> bool {
    let n = c as u32;
    (0x09 <= n && n <= 0x0D) || n == 0x20 || n == 0x85 || n == 0xA0 || n == 0x1680 || (0x2000 <= n
        && n <= 0x200A) || n == 0x2028 || n == 0x2029 || n == 0x202F || n == 0x205F || n == 0x3000
}

/// Whether `c` is one of the ASCII digits `0` to `9`.
pub open spec fn is_digit(c: char) -> bool {
    '0' <= c && c <= '9'
}

/// The position of the first `:` of `s` at or after `from`, or the length of
/// `s` where there is none.
pub open spec fn next_colon(s: Seq<char>, from: int) -> int
    decreases s.len() - from,
{
    if from >= s.len() {
        s.len() as int
    } else if s[from] == ':' {
        from
    } else {
        next_colon(s, from + 1)
    }
}

/// The position of the first character of `s` in `from..to` that is no
/// whitespace, or `to` where all of them are.
pub open spec fn skip_spaces(s: Seq<char>, from: int, to: int) -> int
    decreases to - from,
{
    if from >= to {
        to
    } else if !is_space(s[from]) {
        from
    } else {
        skip_spaces(s, from + 1, to)
    }
}

/// The end of `s` in `from..to` once trailing whitespace is cut off: the
/// position after the last character that is no whitespace, or `from`.
pub open spec fn skip_spaces_back(s: Seq<char>, from: int, to: int) -> int
    decreases to - from,
{
    if to <= from {
        from
    } else if !is_space(s[to - 1]) {
        to
    } else {
        skip_spaces_back(s, from, to - 1)
    }
}

/// The part of `s` in `from..to` without the whitespace around it.
pub open spec fn trimmed(s: Seq<char>, from: int, to: int) -> Seq<char> {
    let start = skip_spaces(s, from, to);
    s.subrange(start, skip_spaces_back(s, start, to))
}

/// The number that the decimal digits of `s` spell.
pub open spec fn digits_value(s: Seq<char>) -> nat
    decreases s.len(),
{
    if s.len() == 0 {
        0
    } else {
        digits_value(s.drop_last()) * 10 + (s.last() as u32 - '0' as u32) as nat
    }
}

/// Whether every character of `s` is a decimal digit.
pub open spec fn all_digits(s: Seq<char>) -> bool {
    forall|i: int| 0 <= i < s.len() ==> is_digit(#[trigger] s[i])
}

/// A number field without its optional leading `+`.
pub open spec fn unsigned_part(field: Seq<char>) -> Seq<char> {
    if field.len() > 0 && field[0] == '+' {
        field.skip(1)
    } else {
        field
    }
}

/// The line number that a trimmed field spells: an optional `+`, then one or
/// more decimal digits whose value fits in 32 bits.
pub open spec fn line_number_of(field: Seq<char>) -> Option<u32> {
    let digits = unsigned_part(field);
    if digits.len() > 0 && all_digits(digits) && digits_value(digits) <= u32::MAX {
        Some(digits_value(digits) as u32)
    } else {
        None
    }
}

/// The coverage state that a trimmed marker field stands for.
pub open spec fn coverage_of(marker: Seq<char>) -> Coverage {
    if marker == seq!['-'] {
        Coverage::NoExecutableCode
    } else if marker == seq!['#', '#', '#', '#', '#'] {
        Coverage::NotCovered
    } else {
        Coverage::Covered
    }
}

/// The statement text of a line whose second colon stands at `second`:
/// everything after that colon, without leading whitespace. A line with no
/// second colon has an empty statement.
pub open spec fn statement_of(s: Seq<char>, second: int) -> Seq<char> {
    if second >= s.len() {
        Seq::empty()
    } else {
        s.subrange(skip_spaces(s, second + 1, s.len() as int), s.len() as int)
    }
}

/// What one report line means.
pub open spec fn parse_line(s: Seq<char>) -> Result<LineRecord, ParseError> {
    let first = next_colon(s, 0);
    if first >= s.len() {
        Err(ParseError::MissingLineNumber)
    } else {
        let second = next_colon(s, first + 1);
        match line_number_of(trimmed(s, first + 1, second)) {
            None => Err(ParseError::InvalidLineNumber),
            Some(n) => Ok(
                LineRecord {
                    line_number: n,
                    statement: statement_of(s, second),
                    coverage: coverage_of(trimmed(s, 0, first)),
                },
            ),
        }
    }
}

/// Whether a report keeps a record: it drops lines without executable code
/// and the metadata lines numbered `0`.
pub open spec fn is_kept(r: LineRecord) -> bool {
    r.coverage != Coverage::NoExecutableCode && r.line_number != 0
}

/// What the lines of one report mean: the kept records of its non-empty
/// lines in report order, or the error of the first line that cannot be
/// read.
pub open spec fn parse_report(lines: Seq<Seq<char>>) -> Result<Seq<LineRecord>, ParseError>
    decreases lines.len(),
{
    if lines.len() == 0 {
        Ok(Seq::empty())
    } else {
        match parse_report(lines.drop_last()) {
            Err(e) => Err(e),
            Ok(records) => if lines.last().len() == 0 {
                Ok(records)
            } else {
                match parse_line(lines.last()) {
                    Err(e) => Err(e),
                    Ok(r) => if is_kept(r) {
                        Ok(records.push(r))
                    } else {
                        Ok(records)
                    },
                }
            },
        }
    }
}

/// The records that a sequence of [`LineInfo`] stands for.
pub open spec fn records_of(lines: Seq<LineInfo>) -> Seq<LineRecord> {
    Seq::new(lines.len(), |i: int| lines[i]@)
}

/// The texts that a sequence of strings stands for.
pub open spec fn texts_of(lines: Seq<String>) -> Seq<Seq<char>> {
    Seq::new(lines.len(), |i: int| lines[i]@)
}

/// Tells whether `c` is whitespace.
fn char_is_space(c: char) -> (r: bool)
    ensures
        r == is_space(c),
{
    let n: u32 = c as u32;
    (0x09 <= n && n <= 0x0D) || n == 0x20 || n == 0x85 || n == 0xA0 || n == 0x1680 || (0x2000 <= n
        && n <= 0x200A) || n == 0x2028 || n == 0x2029 || n == 0x202F || n == 0x205F || n == 0x3000
}

/// The characters of `line`, one by one.
fn chars_of(line: &str) -> (chars: Vec<char>)
    ensures
        chars@ == line@,
{
    broadcast use vstd::string::axiom_spec_iter;

    let mut chars: Vec<char> = Vec::new();
    for c in iter: line.chars()
        invariant
            iter.seq() == line@,
            chars@ == iter.seq().take(iter.index() as int),
    {
        assert(iter.seq().take(iter.index() + 1) =~= iter.seq().take(iter.index() as int).push(c));
        chars.push(c);
    }
    assert(chars@ =~= line@);
    chars
}

/// Finds the first colon at or after `from`.
fn find_colon(line: &Vec<char>, len: usize, from: usize) -> (at: usize)
    requires
        len == line@.len(),
        from <= len,
    ensures
        at == next_colon(line@, from as int),
        from <= at <= len,
{
    let mut i: usize = from;
    while i < len && line[i] != ':'
        invariant
            len == line@.len(),
            from <= i <= len,
            next_colon(line@, from as int) == next_colon(line@, i as int),
        decreases len - i,
    {
        i += 1;
    }
    i
}

/// Skips the whitespace at the start of `from..to`.
fn trim_start_at(line: &Vec<char>, from: usize, to: usize) -> (at: usize)
    requires
        from <= to <= line@.len(),
    ensures
        at == skip_spaces(line@, from as int, to as int),
        from <= at <= to,
{
    let mut i: usize = from;
    while i < to && char_is_space(line[i])
        invariant
            from <= i <= to <= line@.len(),
            skip_spaces(line@, from as int, to as int) == skip_spaces(line@, i as int, to as int),
        decreases to - i,
    {
        i += 1;
    }
    i
}

/// Cuts the whitespace off the end of `from..to`.
fn trim_end_at(line: &Vec<char>, from: usize, to: usize) -> (at: usize)
    requires
        from <= to <= line@.len(),
    ensures
        at == skip_spaces_back(line@, from as int, to as int),
        from <= at <= to,
{
    let mut i: usize = to;
    while i > from && char_is_space(line[i - 1])
        invariant
            from <= i <= to <= line@.len(),
            skip_spaces_back(line@, from as int, to as int) == skip_spaces_back(
                line@,
                from as int,
                i as int,
            ),
        decreases i - from,
    {
        i -= 1;
    }
    i
}

/// Reads the coverage state off the trimmed marker in `from..to`.
fn classify_marker(line: &Vec<char>, from: usize, to: usize) -> (c: Coverage)
    requires
        from <= to <= line@.len(),
    ensures
        c == coverage_of(line@.subrange(from as int, to as int)),
{
    let ghost marker = line@.subrange(from as int, to as int);
    if to - from == 1 && line[from] == '-' {
        assert(marker =~= seq!['-']);
        Coverage::NoExecutableCode
    } else if to - from == 5 && line[from] == '#' && line[from + 1] == '#'
        && line[from + 2] == '#' && line[from + 3] == '#' && line[from + 4] == '#' {
        assert(marker =~= seq!['#', '#', '#', '#', '#']);
        Coverage::NotCovered
    } else {
        assert(marker != seq!['-']) by {
            if marker.len() == 1 {
                assert(marker[0] != '-');
            }
        }
        assert(marker != seq!['#', '#', '#', '#', '#']) by {
            if marker.len() == 5 {
                assert(marker[0] != '#' || marker[1] != '#' || marker[2] != '#' || marker[3] != '#'
                    || marker[4] != '#');
            }
        }
        Coverage::Covered
    }
}

/// Reads the line number off the trimmed field in `from..to`.
fn read_line_number(line: &Vec<char>, from: usize, to: usize) -> (n: Option<u32>)
    requires
        from <= to <= line@.len(),
    ensures
        n == line_number_of(line@.subrange(from as int, to as int)),
{
    let ghost field = line@.subrange(from as int, to as int);
    let start: usize = if from < to && line[from] == '+' {
        from + 1
    } else {
        from
    };
    let ghost digits = line@.subrange(start as int, to as int);
    assert(digits =~= unsigned_part(field));
    if start == to {
        return None;
    }
    let mut value: u32 = 0;
    let mut fits = true;
    let mut i: usize = start;
    while i < to
        invariant
            start <= i <= to <= line@.len(),
            digits == line@.subrange(start as int, to as int),
            digits == unsigned_part(line@.subrange(from as int, to as int)),
            all_digits(digits.take(i - start)),
            fits ==> value == digits_value(digits.take(i - start)),
            !fits ==> digits_value(digits.take(i - start)) > u32::MAX,
        decreases to - i,
    {
        let c = line[i];
        proof {
            assert(digits[i - start] == c);
            assert(digits.take(i - start + 1).drop_last() =~= digits.take(i - start));
            assert(digits.take(i - start + 1).last() == c);
        }
        if !('0' <= c && c <= '9') {
            assert(!is_digit(digits[i - start]));
            return None;
        }
        let d: u32 = c as u32 - '0' as u32;
        if fits {
            if value > (u32::MAX - d) / 10 {
                fits = false;
            } else {
                value = value * 10 + d;
            }
        }
        i += 1;
    }
    assert(digits.take(to - start) =~= digits);
    if fits {
        Some(value)
    } else {
        None
    }
}

/// Reads one line of a coverage report.
///
/// The marker before the first colon gives the coverage state, the field
/// between the first and the second colon the line number, and everything
/// after the second colon, colons included, the statement.
pub fn parse_gcov_line(line: &str) -> (r: Result<LineInfo, ParseError>)
    ensures
        match r {
            Ok(info) => parse_line(line@) == Ok::<LineRecord, ParseError>(info@),
            Err(e) => parse_line(line@) == Err::<LineRecord, ParseError>(e),
        },
{
    let chars = chars_of(line);
    let len = chars.len();
    let first = find_colon(&chars, len, 0);
    if first >= len {
        return Err(ParseError::MissingLineNumber);
    }
    let marker_start = trim_start_at(&chars, 0, first);
    let marker_end = trim_end_at(&chars, marker_start, first);
    let coverage = classify_marker(&chars, marker_start, marker_end);
    let second = find_colon(&chars, len, first + 1);
    let number_start = trim_start_at(&chars, first + 1, second);
    let number_end = trim_end_at(&chars, number_start, second);
    let line_number = match read_line_number(&chars, number_start, number_end) {
        Some(n) => n,
        None => {
            return Err(ParseError::InvalidLineNumber);
        },
    };
    let statement = if second >= len {
        String::new()
    } else {
        let text_start = trim_start_at(&chars, second + 1, len);
        line.substring_char(text_start, len).to_owned()
    };
    Ok(LineInfo { line_number, statement, coverage })
}

/// Reads the lines of one coverage report, in report order.
///
/// Empty lines are skipped. Lines without executable code and the metadata
/// lines numbered `0` are read and then dropped, so no record of the result
/// is one of them. The first line that cannot be read fails the whole report.
pub fn parse_gcov_file(lines: &Vec<String>) -> (r: Result<Vec<LineInfo>, ParseError>)
    ensures
        match r {
            Ok(infos) => parse_report(texts_of(lines@)) == Ok::<Seq<LineRecord>, ParseError>(
                records_of(infos@),
            ) && forall|i: int| 0 <= i < infos@.len() ==> is_kept(#[trigger] infos@[i]@),
            Err(e) => parse_report(texts_of(lines@)) == Err::<Seq<LineRecord>, ParseError>(e),
        },
{
    let ghost texts = texts_of(lines@);
    let mut infos: Vec<LineInfo> = Vec::new();
    let mut i: usize = 0;
    assert(records_of(infos@) =~= Seq::empty());
    while i < lines.len()
        invariant
            i <= lines@.len(),
            texts == texts_of(lines@),
            parse_report(texts.take(i as int)) == Ok::<Seq<LineRecord>, ParseError>(
                records_of(infos@),
            ),
            forall|k: int| 0 <= k < infos@.len() ==> is_kept(#[trigger] infos@[k]@),
        decreases lines@.len() - i,
    {
        let line = lines[i].as_str();
        proof {
            assert(texts.take(i + 1).drop_last() =~= texts.take(i as int));
            assert(texts.take(i + 1).last() == line@);
        }
        if !line.is_empty() {
            match parse_gcov_line(line) {
                Err(e) => {
                    proof {
                        lemma_failure_stays(texts, i + 1);
                    }
                    return Err(e);
                },
                Ok(info) => {
                    if info.coverage != Coverage::NoExecutableCode && info.line_number != 0 {
                        assert(records_of(infos@.push(info)) =~= records_of(infos@).push(info@));
                        infos.push(info);
                    }
                },
            }
        }
        i += 1;
    }
    assert(texts.take(i as int) =~= texts);
    Ok(infos)
}

/// A report fails as soon as one of its prefixes fails, and with the same
/// error.
pub proof fn lemma_failure_stays(lines: Seq<Seq<char>>, n: int)
    requires
        0 <= n <= lines.len(),
        parse_report(lines.take(n)) is Err,
    ensures
        parse_report(lines) == parse_report(lines.take(n)),
    decreases lines.len() - n,
{
    if n == lines.len() {
        assert(lines.take(n) =~= lines);
    } else {
        assert(lines.take(n + 1).drop_last() =~= lines.take(n));
        lemma_failure_stays(lines, n + 1);
    }
}

/// Where the characters of `s` in `from..at` hold no colon and a colon stands
/// at `at`, or `s` ends there, the next colon from `from` on is at `at`.
pub proof fn lemma_next_colon(s: Seq<char>, from: int, at: int)
    requires
        0 <= from <= at <= s.len(),
        forall|i: int| from <= i < at ==> s[i] != ':',
        at < s.len() ==> s[at] == ':',
    ensures
        next_colon(s, from) == at,
    decreases at - from,
{
    if from < at {
        lemma_next_colon(s, from + 1, at);
    }
}

/// Where the characters of `s` in `from..at` are whitespace and the one at
/// `at` is not, or `at` is `to`, skipping whitespace from `from` on stops at
/// `at`.
pub proof fn lemma_skip_spaces(s: Seq<char>, from: int, at: int, to: int)
    requires
        0 <= from <= at <= to <= s.len(),
        forall|i: int| from <= i < at ==> is_space(s[i]),
        at < to ==> !is_space(s[at]),
    ensures
        skip_spaces(s, from, to) == at,
    decreases at - from,
{
    if from < at {
        lemma_skip_spaces(s, from + 1, at, to);
    }
}

/// Skipping whitespace inside a part of `s` is skipping it in that part
/// taken alone.
pub proof fn lemma_skip_spaces_in_part(s: Seq<char>, a: int, b: int, from: int)
    requires
        0 <= a <= from <= b <= s.len(),
    ensures
        skip_spaces(s, from, b) == a + skip_spaces(s.subrange(a, b), from - a, b - a),
    decreases b - from,
{
    if from < b {
        assert(s.subrange(a, b)[from - a] == s[from]);
        if is_space(s[from]) {
            lemma_skip_spaces_in_part(s, a, b, from + 1);
        }
    }
}

/// Cutting trailing whitespace inside a part of `s` is cutting it in that
/// part taken alone.
pub proof fn lemma_skip_spaces_back_in_part(s: Seq<char>, a: int, b: int, from: int, to: int)
    requires
        0 <= a <= from <= to <= b <= s.len(),
    ensures
        skip_spaces_back(s, from, to) == a + skip_spaces_back(
            s.subrange(a, b),
            from - a,
            to - a,
        ),
    decreases to - from,
{
    if from < to {
        assert(s.subrange(a, b)[to - 1 - a] == s[to - 1]);
        if is_space(s[to - 1]) {
            lemma_skip_spaces_back_in_part(s, a, b, from, to - 1);
        }
    }
}

/// The bounds that trimming a part of `s` gives lie inside the part.
pub proof fn lemma_trim_bounds(s: Seq<char>, from: int, to: int)
    requires
        0 <= from <= to <= s.len(),
    ensures
        from <= skip_spaces(s, from, to) <= to,
        forall|start: int|
            from <= start <= to ==> start <= #[trigger] skip_spaces_back(s, start, to) <= to,
    decreases to - from,
{
    if from < to {
        lemma_trim_bounds(s, from + 1, to);
        lemma_trim_bounds(s, from, to - 1);
        assert forall|start: int| from <= start <= to implies start <= #[trigger] skip_spaces_back(
            s,
            start,
            to,
        ) <= to by {
            if start < to && is_space(s[to - 1]) {
                assert(start <= skip_spaces_back(s, start, to - 1) <= to - 1);
            }
        }
    }
}

/// Trimming a part of `s` is trimming that part taken alone.
pub proof fn lemma_trimmed_part(s: Seq<char>, a: int, b: int)
    requires
        0 <= a <= b <= s.len(),
    ensures
        trimmed(s, a, b) == trimmed(s.subrange(a, b), 0, b - a),
{
    let part = s.subrange(a, b);
    lemma_skip_spaces_in_part(s, a, b, a);
    let start = skip_spaces(s, a, b);
    lemma_trim_bounds(s, a, b);
    lemma_trim_bounds(part, 0, b - a);
    lemma_skip_spaces_back_in_part(s, a, b, start, b);
    assert(trimmed(s, a, b) =~= trimmed(part, 0, b - a));
}

/// The line written from its fields.
pub open spec fn line_of(
    marker: Seq<char>,
    number: Seq<char>,
    padding: Seq<char>,
    text: Seq<char>,
) -> Seq<char> {
    marker + seq![':'] + number + seq![':'] + padding + text
}

/// Reading a line gives back the fields it was written from: the marker and
/// the number decide the state and the line number, and the statement is the
/// text after the padding, with every colon it holds. The marker and the
/// number hold no colon, the padding is whitespace, and the text does not
/// begin with whitespace.
pub proof fn lemma_parse_line_of_fields(
    marker: Seq<char>,
    number: Seq<char>,
    padding: Seq<char>,
    text: Seq<char>,
)
    requires
        forall|i: int| 0 <= i < marker.len() ==> marker[i] != ':',
        forall|i: int| 0 <= i < number.len() ==> number[i] != ':',
        forall|i: int| 0 <= i < padding.len() ==> is_space(padding[i]),
        text.len() > 0 ==> !is_space(text[0]),
    ensures
        parse_line(line_of(marker, number, padding, text)) == match line_number_of(
            trimmed(number, 0, number.len() as int),
        ) {
            None => Err::<LineRecord, ParseError>(ParseError::InvalidLineNumber),
            Some(n) => Ok::<LineRecord, ParseError>(
                LineRecord {
                    line_number: n,
                    statement: text,
                    coverage: coverage_of(trimmed(marker, 0, marker.len() as int)),
                },
            ),
        },
{
    let line = line_of(marker, number, padding, text);
    let first = marker.len() as int;
    let second = first + 1 + number.len();
    let body = second + 1 + padding.len();
    assert(line.len() == body + text.len());
    assert(line[first] == ':');
    assert(line[second] == ':');
    assert forall|i: int| 0 <= i < first implies line[i] != ':' by {
        assert(line[i] == marker[i]);
    }
    assert forall|i: int| first + 1 <= i < second implies line[i] != ':' by {
        assert(line[i] == number[i - first - 1]);
    }
    assert forall|i: int| second + 1 <= i < body implies is_space(line[i]) by {
        assert(line[i] == padding[i - second - 1]);
    }
    if text.len() > 0 {
        assert(line[body] == text[0]);
    }
    lemma_next_colon(line, 0, first);
    lemma_next_colon(line, first + 1, second);
    lemma_skip_spaces(line, second + 1, body, line.len() as int);
    assert(line.subrange(0, first) =~= marker);
    assert(line.subrange(first + 1, second) =~= number);
    assert(line.subrange(body, line.len() as int) =~= text);
    lemma_trimmed_part(line, 0, first);
    lemma_trimmed_part(line, first + 1, second);
}

/// A report keeps no line without executable code and no line numbered `0`.
pub proof fn lemma_report_keeps_only_code(lines: Seq<Seq<char>>)
    ensures
        match parse_report(lines) {
            Ok(records) => forall|i: int| 0 <= i < records.len() ==> is_kept(#[trigger] records[i]),
            Err(_) => true,
        },
    decreases lines.len(),
{
    if lines.len() > 0 {
        lemma_report_keeps_only_code(lines.drop_last());
    }
}

} // verus!
