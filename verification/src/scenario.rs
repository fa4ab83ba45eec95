//! Scenarios in the MovingAI `.scen` text format.

use vstd::prelude::*;
use vstd::slice::slice_subrange;
use vstd::string::*;
use crate::map::after_key;
use crate::text::{
    chars_of, decimal, eq_ignore_ascii_case, fields, has_prefix, is_digit, lines, parse_unsigned,
    push_decimal, same_ignoring_ascii_case, span_text, spans_text, spans_within, split_fields,
    split_lines, starts_with, string_of, trim, trim_bounds, unsigned_value,
};

verus! {

/// Errors from parsing a MovingAI scenario file.
#[derive(Debug)]
pub enum ScenarioError {
    MissingVersion,
    InvalidVersion(String),
    MalformedEntry { line: usize, reason: String },
}

/// A single entry (agent task) in a scenario file.
#[derive(Debug, Clone)]
pub struct ScenarioEntry {
    /// Bucket index (used for grouping by difficulty).
    pub bucket: u32,
    /// Name of the map file this entry refers to.
    pub map_name: String,
    /// Map width (for validation).
    pub map_width: u32,
    /// Map height (for validation).
    pub map_height: u32,
    /// Start x coordinate.
    pub start_x: u32,
    /// Start y coordinate.
    pub start_y: u32,
    /// Goal x coordinate.
    pub goal_x: u32,
    /// Goal y coordinate.
    pub goal_y: u32,
    /// Optimal path length, as the decimal text the file gives. The text is
    /// a well-formed number; turning it into one is left to the caller.
    pub optimal_length: String,
}

/// A parsed MovingAI scenario file.
#[derive(Debug, Clone)]
pub struct Scenario {
    version: u32,
    entries: Vec<ScenarioEntry>,
}

/// What a `ScenarioEntry` holds, as mathematical values.
pub struct EntryModel {
    pub bucket: u32,
    pub map_name: Seq<char>,
    pub map_width: u32,
    pub map_height: u32,
    pub start_x: u32,
    pub start_y: u32,
    pub goal_x: u32,
    pub goal_y: u32,
    pub optimal_length: Seq<char>,
}

/// What a `Scenario` holds, as mathematical values.
pub struct ScenarioModel {
    pub version: u32,
    pub entries: Seq<EntryModel>,
}

/// What a `ScenarioError` says, as mathematical values.
pub enum ScenarioFault {
    MissingVersion,
    InvalidVersion(Seq<char>),
    MalformedEntry { line: nat, reason: Seq<char> },
}

impl View for ScenarioEntry {
    type V = EntryModel;

    open spec fn view(&self) -> EntryModel {
        EntryModel {
            bucket: self.bucket,
            map_name: self.map_name@,
            map_width: self.map_width,
            map_height: self.map_height,
            start_x: self.start_x,
            start_y: self.start_y,
            goal_x: self.goal_x,
            goal_y: self.goal_y,
            optimal_length: self.optimal_length@,
        }
    }
}

impl View for ScenarioError {
    type V = ScenarioFault;

    open spec fn view(&self) -> ScenarioFault {
        match self {
            ScenarioError::MissingVersion => ScenarioFault::MissingVersion,
            ScenarioError::InvalidVersion(text) => ScenarioFault::InvalidVersion(text@),
            ScenarioError::MalformedEntry { line, reason } => ScenarioFault::MalformedEntry {
                line: *line as nat,
                reason: reason@,
            },
        }
    }
}

/// The models of a list of entries.
pub open spec fn entry_models(entries: Seq<ScenarioEntry>) -> Seq<EntryModel> {
    Seq::new(entries.len(), |i: int| entries[i]@)
}

impl View for Scenario {
    type V = ScenarioModel;

    closed spec fn view(&self) -> ScenarioModel {
        ScenarioModel { version: self.version, entries: entry_models(self.entries@) }
    }
}

// ---------------------------------------------------------------------------
// Decimal fractions
// ---------------------------------------------------------------------------

/// The end of the run of digits that begins at `from`.
pub open spec fn digits_end(s: Seq<char>, from: int) -> int
    decreases s.len() - from,
{
    if 0 <= from < s.len() && is_digit(s[from]) {
        digits_end(s, from + 1)
    } else {
        from
    }
}

pub open spec fn is_sign(c: char) -> bool {
    c == '+' || c == '-'
}

/// An exponent begins at `from` and ends the text: an optional sign, then
/// one or more digits.
pub open spec fn exponent_at(s: Seq<char>, from: int) -> bool {
    let digits = if from < s.len() && is_sign(s[from]) {
        from + 1
    } else {
        from
    };
    digits_end(s, digits) > digits && digits_end(s, digits) == s.len()
}

/// Digits with at most one point among them and at least one digit in all,
/// then nothing or an `e` and an exponent.
pub open spec fn is_number_text(s: Seq<char>) -> bool {
    let whole = digits_end(s, 0);
    let pointed = whole < s.len() && s[whole] == '.';
    let mantissa = if pointed {
        digits_end(s, whole + 1)
    } else {
        whole
    };
    let digits = if pointed {
        mantissa - 1
    } else {
        mantissa
    };
    digits > 0 && (mantissa == s.len() || ((s[mantissa] == 'e' || s[mantissa] == 'E')
        && exponent_at(s, mantissa + 1)))
}

/// One of the words `inf`, `infinity` and `nan`, in any case.
pub open spec fn is_special_text(s: Seq<char>) -> bool {
    same_ignoring_ascii_case(s, "inf"@) || same_ignoring_ascii_case(s, "infinity"@)
        || same_ignoring_ascii_case(s, "nan"@)
}

/// The text without one leading sign.
pub open spec fn unsigned_part(s: Seq<char>) -> Seq<char> {
    if s.len() > 0 && is_sign(s[0]) {
        s.subrange(1, s.len() as int)
    } else {
        s
    }
}

/// The text writes a floating-point number in decimal notation: an optional
/// sign, then a number with or without point and exponent, or one of the
/// words for infinity and not-a-number.
pub open spec fn is_float_text(s: Seq<char>) -> bool {
    is_special_text(unsigned_part(s)) || is_number_text(unsigned_part(s))
}

fn skip_digits(s: &[char], from: usize) -> (end: usize)
    requires
        from <= s@.len(),
    ensures
        from <= end <= s@.len(),
        end == digits_end(s@, from as int),
{
    let mut end: usize = from;
    while end < s.len() && '0' <= s[end] && s[end] <= '9'
        invariant
            from <= end <= s@.len(),
            digits_end(s@, from as int) == digits_end(s@, end as int),
        decreases s@.len() - end,
    {
        end += 1;
    }
    end
}

fn number_text_ok(s: &[char]) -> (ok: bool)
    ensures
        ok == is_number_text(s@),
{
    let whole = skip_digits(s, 0);
    let pointed = whole < s.len() && s[whole] == '.';
    let mantissa = if pointed {
        skip_digits(s, whole + 1)
    } else {
        whole
    };
    let digits = if pointed {
        mantissa - 1
    } else {
        mantissa
    };
    if digits == 0 {
        return false;
    }
    if mantissa == s.len() {
        return true;
    }
    if s[mantissa] != 'e' && s[mantissa] != 'E' {
        return false;
    }
    let from = mantissa + 1;
    let first = if from < s.len() && (s[from] == '+' || s[from] == '-') {
        from + 1
    } else {
        from
    };
    let end = skip_digits(s, first);
    end > first && end == s.len()
}

/// Tells whether a text writes a floating-point number.
pub fn float_text_ok(s: &[char]) -> (ok: bool)
    ensures
        ok == is_float_text(s@),
{
    let body = if s.len() > 0 && (s[0] == '+' || s[0] == '-') {
        slice_subrange(s, 1, s.len())
    } else {
        s
    };
    let inf = chars_of("inf");
    let infinity = chars_of("infinity");
    let nan = chars_of("nan");
    eq_ignore_ascii_case(body, inf.as_slice()) || eq_ignore_ascii_case(body, infinity.as_slice())
        || eq_ignore_ascii_case(body, nan.as_slice()) || number_text_ok(body)
}

// ---------------------------------------------------------------------------
// The format
// ---------------------------------------------------------------------------

/// A line of white space only.
pub open spec fn is_blank(line: Seq<char>) -> bool {
    trim(line).len() == 0
}

/// Reads the version from the first line at or after `from` that is not
/// blank: the word `version` and a decimal `u32`. Gives the version and the
/// number of the line behind it.
pub open spec fn read_version(ls: Seq<Seq<char>>, from: int) -> Result<(u32, int), ScenarioFault>
    decreases ls.len() - from,
{
    if from < 0 || from >= ls.len() {
        Err(ScenarioFault::MissingVersion)
    } else if is_blank(ls[from]) {
        read_version(ls, from + 1)
    } else if has_prefix(trim(ls[from]), "version "@) {
        let rest = after_key(ls[from], "version "@);
        match unsigned_value(trim(rest), u32::MAX as nat) {
            Some(v) => Ok((v as u32, from + 1)),
            None => Err(ScenarioFault::InvalidVersion(rest)),
        }
    } else {
        Err(ScenarioFault::MissingVersion)
    }
}

/// The column that holds the `k`-th number of an entry.
pub open spec fn number_column(k: int) -> int {
    if k == 0 {
        0
    } else {
        k + 1
    }
}

/// The name under which the `k`-th number of an entry is reported.
pub open spec fn number_name(k: int) -> Seq<char> {
    if k == 0 {
        "bucket"@
    } else if k == 1 {
        "width"@
    } else if k == 2 {
        "height"@
    } else if k == 3 {
        "start_x"@
    } else if k == 4 {
        "start_y"@
    } else if k == 5 {
        "goal_x"@
    } else {
        "goal_y"@
    }
}

pub open spec fn invalid_text(name: Seq<char>, found: Seq<char>) -> Seq<char> {
    "invalid "@ + name + ": "@ + found
}

pub open spec fn columns_text(found: nat) -> Seq<char> {
    "expected 9 columns, got "@ + decimal(found)
}

/// The first `upto` numbers of an entry, or the error for the first column
/// among them that holds no decimal `u32`.
pub open spec fn read_numbers(columns: Seq<Seq<char>>, line: nat, upto: int) -> Result<
    Seq<u32>,
    ScenarioFault,
>
    decreases upto,
{
    if upto <= 0 {
        Ok(Seq::empty())
    } else {
        match read_numbers(columns, line, upto - 1) {
            Err(e) => Err(e),
            Ok(before) => {
                let column = columns[number_column(upto - 1)];
                match unsigned_value(column, u32::MAX as nat) {
                    Some(v) => Ok(before.push(v as u32)),
                    None => Err(
                        ScenarioFault::MalformedEntry {
                            line,
                            reason: invalid_text(number_name(upto - 1), column),
                        },
                    ),
                }
            },
        }
    }
}

/// The entry that line number `line` stands for: nine columns that tabs
/// separate, white space around the line not counted. The columns are
/// checked from left to right, and the first fault is the one reported.
pub open spec fn entry_of(text: Seq<char>, line: nat) -> Result<EntryModel, ScenarioFault> {
    let columns = fields(trim(text), '\t');
    if columns.len() != 9 {
        Err(ScenarioFault::MalformedEntry { line, reason: columns_text(columns.len()) })
    } else {
        match read_numbers(columns, line, 7) {
            Err(e) => Err(e),
            Ok(numbers) => if !is_float_text(columns[8]) {
                Err(
                    ScenarioFault::MalformedEntry {
                        line,
                        reason: invalid_text("optimal_length"@, columns[8]),
                    },
                )
            } else {
                Ok(
                    EntryModel {
                        bucket: numbers[0],
                        map_name: columns[1],
                        map_width: numbers[1],
                        map_height: numbers[2],
                        start_x: numbers[3],
                        start_y: numbers[4],
                        goal_x: numbers[5],
                        goal_y: numbers[6],
                        optimal_length: columns[8],
                    },
                )
            },
        }
    }
}

/// Reads the entries from line `from` on, behind those read before. Blank
/// lines are skipped; lines count from 1.
pub open spec fn read_entries(ls: Seq<Seq<char>>, from: int, entries: Seq<EntryModel>) -> Result<
    Seq<EntryModel>,
    ScenarioFault,
>
    decreases ls.len() - from,
{
    if from < 0 || from >= ls.len() {
        Ok(entries)
    } else if is_blank(ls[from]) {
        read_entries(ls, from + 1, entries)
    } else {
        match entry_of(ls[from], (from + 1) as nat) {
            Err(e) => Err(e),
            Ok(entry) => read_entries(ls, from + 1, entries.push(entry)),
        }
    }
}

/// What a scenario text stands for: a version line, then one entry per line
/// that is not blank.
pub open spec fn parse_model(input: Seq<char>) -> Result<ScenarioModel, ScenarioFault> {
    let ls = lines(input);
    match read_version(ls, 0) {
        Err(e) => Err(e),
        Ok((version, from)) => match read_entries(ls, from, Seq::empty()) {
            Err(e) => Err(e),
            Ok(entries) => Ok(ScenarioModel { version, entries }),
        },
    }
}

/// The starts of the entries, in order, each as `(x, y)`.
pub open spec fn starts_of(entries: Seq<EntryModel>) -> Seq<(u32, u32)> {
    Seq::new(entries.len(), |i: int| (entries[i].start_x, entries[i].start_y))
}

/// The goals of the entries, in order, each as `(x, y)`.
pub open spec fn goals_of(entries: Seq<EntryModel>) -> Seq<(u32, u32)> {
    Seq::new(entries.len(), |i: int| (entries[i].goal_x, entries[i].goal_y))
}

fn number_label(k: usize) -> (name: &'static str)
    requires
        k < 7,
    ensures
        name@ == number_name(k as int),
{
    if k == 0 {
        "bucket"
    } else if k == 1 {
        "width"
    } else if k == 2 {
        "height"
    } else if k == 3 {
        "start_x"
    } else if k == 4 {
        "start_y"
    } else if k == 5 {
        "goal_x"
    } else {
        "goal_y"
    }
}

fn invalid_reason(name: &str, found: &[char]) -> (reason: String)
    ensures
        reason@ == invalid_text(name@, found@),
{
    let mut reason = String::from_str("invalid ");
    reason.append(name);
    reason.append(": ");
    let shown = string_of(found);
    reason.append(shown.as_str());
    reason
}

proof fn lemma_first_bad_number(columns: Seq<Seq<char>>, line: nat, bad: int, upto: int)
    requires
        bad <= upto,
        read_numbers(columns, line, bad) is Err,
    ensures
        read_numbers(columns, line, upto) == read_numbers(columns, line, bad),
    decreases upto - bad,
{
    if bad < upto {
        lemma_first_bad_number(columns, line, bad, upto - 1);
    }
}

/// Reads one entry from a line that is not blank.
fn parse_entry(text: &[char], line: usize) -> (r: Result<ScenarioEntry, ScenarioError>)
    ensures
        match entry_of(text@, line as nat) {
            Ok(model) => r matches Ok(entry) && entry@ == model,
            Err(fault) => r matches Err(e) && e@ == fault,
        },
{
    let (a, b) = trim_bounds(text);
    let trimmed = slice_subrange(text, a, b);
    let spans = split_fields(trimmed, '\t');
    let ghost columns = fields(trim(text@), '\t');
    if spans.len() != 9 {
        let mut reason = String::from_str("expected 9 columns, got ");
        push_decimal(&mut reason, spans.len() as u64);
        return Err(ScenarioError::MalformedEntry { line, reason });
    }
    let mut numbers: Vec<u32> = Vec::new();
    let mut k: usize = 0;
    while k < 7
        invariant
            k <= 7,
            trimmed@ == trim(text@),
            columns == fields(trim(text@), '\t'),
            spans@.len() == 9,
            spans_within(trimmed@, spans@),
            spans_text(trimmed@, spans@) == columns,
            read_numbers(columns, line as nat, k as int) == Ok::<_, ScenarioFault>(numbers@),
            numbers@.len() == k,
        decreases 7 - k,
    {
        let at: usize = if k == 0 {
            0
        } else {
            k + 1
        };
        let span = spans[at];
        let column = slice_subrange(trimmed, span.lo, span.hi);
        assert(column@ == columns[number_column(k as int)]) by {
            assert(spans_text(trimmed@, spans@)[at as int] == span_text(trimmed@, spans@[at as int]));
        }
        match parse_unsigned(column, u32::MAX as u64) {
            Some(v) => {
                numbers.push(v as u32);
            },
            None => {
                proof {
                    lemma_first_bad_number(columns, line as nat, k + 1, 7);
                }
                return Err(
                    ScenarioError::MalformedEntry {
                        line,
                        reason: invalid_reason(number_label(k), column),
                    },
                );
            },
        }
        k += 1;
    }
    let name_span = spans[1];
    let name = slice_subrange(trimmed, name_span.lo, name_span.hi);
    let last_span = spans[8];
    let last = slice_subrange(trimmed, last_span.lo, last_span.hi);
    assert(name@ == columns[1] && last@ == columns[8]) by {
        assert(spans_text(trimmed@, spans@)[1] == span_text(trimmed@, spans@[1]));
        assert(spans_text(trimmed@, spans@)[8] == span_text(trimmed@, spans@[8]));
    }
    if !float_text_ok(last) {
        return Err(
            ScenarioError::MalformedEntry { line, reason: invalid_reason("optimal_length", last) },
        );
    }
    Ok(
        ScenarioEntry {
            bucket: numbers[0],
            map_name: string_of(name),
            map_width: numbers[1],
            map_height: numbers[2],
            start_x: numbers[3],
            start_y: numbers[4],
            goal_x: numbers[5],
            goal_y: numbers[6],
            optimal_length: string_of(last),
        },
    )
}

impl Scenario {
    /// Parse a `.scen` file content.
    ///
    /// Expected format:
    /// ```text
    /// version N
    /// bucket\tmap\twidth\theight\tstart_x\tstart_y\tgoal_x\tgoal_y\toptimal
    /// ...
    /// ```
    pub fn parse(input: &str) -> (result: Result<Scenario, ScenarioError>)
        ensures
            match parse_model(input@) {
                Ok(model) => result matches Ok(scenario) && scenario@ == model,
                Err(fault) => result matches Err(e) && e@ == fault,
            },
    {
        let chars = chars_of(input);
        let text = chars.as_slice();
        let spans = split_lines(text);
        let ghost ls = lines(input@);
        let version_key = chars_of("version ");
        let mut from: usize = 0;
        let mut version: Option<u32> = None;
        while version.is_none()
            invariant
                from <= spans@.len(),
                text@ == input@,
                ls == lines(input@),
                spans_within(text@, spans@),
                spans_text(text@, spans@) == ls,
                version_key@ == "version "@,
                version is None ==> read_version(ls, 0) == read_version(ls, from as int),
                version matches Some(v) ==> read_version(ls, 0) == Ok::<_, ScenarioFault>(
                    (v, from as int),
                ),
            decreases
                    (if version is None {
                        spans@.len() - from + 1
                    } else {
                        0
                    }),
        {
            if from >= spans.len() {
                return Err(ScenarioError::MissingVersion);
            }
            let span = spans[from];
            let line = slice_subrange(text, span.lo, span.hi);
            assert(line@ == ls[from as int]) by {
                assert(spans_text(text@, spans@)[from as int] == span_text(text@, spans@[from as int]));
            }
            let (a, b) = trim_bounds(line);
            let trimmed = slice_subrange(line, a, b);
            if trimmed.len() > 0 {
                if !starts_with(trimmed, version_key.as_slice()) {
                    return Err(ScenarioError::MissingVersion);
                }
                let rest = slice_subrange(trimmed, version_key.len(), trimmed.len());
                let (c, d) = trim_bounds(rest);
                match parse_unsigned(slice_subrange(rest, c, d), u32::MAX as u64) {
                    Some(v) => {
                        version = Some(v as u32);
                    },
                    None => {
                        return Err(ScenarioError::InvalidVersion(string_of(rest)));
                    },
                }
            }
            from += 1;
        }
        let version = match version {
            Some(v) => v,
            None => {
                return Err(ScenarioError::MissingVersion);
            },
        };
        let ghost first = from as int;
        let mut entries: Vec<ScenarioEntry> = Vec::new();
        assert(entry_models(entries@) =~= Seq::empty());
        while from < spans.len()
            invariant
                from <= spans@.len(),
                text@ == input@,
                ls == lines(input@),
                spans_within(text@, spans@),
                spans_text(text@, spans@) == ls,
                read_version(ls, 0) == Ok::<_, ScenarioFault>((version, first)),
                read_entries(ls, first, Seq::empty()) == read_entries(
                    ls,
                    from as int,
                    entry_models(entries@),
                ),
            decreases spans@.len() - from,
        {
            let span = spans[from];
            let line = slice_subrange(text, span.lo, span.hi);
            assert(line@ == ls[from as int]) by {
                assert(spans_text(text@, spans@)[from as int] == span_text(text@, spans@[from as int]));
            }
            let (a, b) = trim_bounds(line);
            if a < b {
                match parse_entry(line, from + 1) {
                    Ok(entry) => {
                        let ghost before = entries@;
                        entries.push(entry);
                        assert(entry_models(entries@) =~= entry_models(before).push(entry@));
                    },
                    Err(e) => {
                        return Err(e);
                    },
                }
            }
            from += 1;
        }
        Ok(Scenario { version, entries })
    }

    /// Scenario file version number.
    pub fn version(&self) -> (v: u32)
        ensures
            v == self@.version,
    {
        self.version
    }

    /// All scenario entries (agent tasks).
    pub fn entries(&self) -> (entries: &[ScenarioEntry])
        ensures
            entry_models(entries@) == self@.entries,
    {
        self.entries.as_slice()
    }

    /// Extract (start, goal) coordinate pairs for all agents.
    /// Returns (starts, goals) where each is a Vec of (x, y).
    pub fn agents(&self) -> (pairs: (Vec<(u32, u32)>, Vec<(u32, u32)>))
        ensures
            pairs.0@ == starts_of(self@.entries),
            pairs.1@ == goals_of(self@.entries),
    {
        let mut starts: Vec<(u32, u32)> = Vec::new();
        let mut goals: Vec<(u32, u32)> = Vec::new();
        let mut i: usize = 0;
        while i < self.entries.len()
            invariant
                i <= self.entries@.len(),
                starts@.len() == i,
                goals@.len() == i,
                forall|k: int|
                    0 <= k < i ==> #[trigger] starts@[k] == (
                        self.entries@[k].start_x,
                        self.entries@[k].start_y,
                    ),
                forall|k: int|
                    0 <= k < i ==> #[trigger] goals@[k] == (
                        self.entries@[k].goal_x,
                        self.entries@[k].goal_y,
                    ),
            decreases self.entries@.len() - i,
        {
            starts.push((self.entries[i].start_x, self.entries[i].start_y));
            goals.push((self.entries[i].goal_x, self.entries[i].goal_y));
            i += 1;
        }
        assert(starts@ =~= starts_of(self@.entries));
        assert(goals@ =~= goals_of(self@.entries));
        (starts, goals)
    }
}

pub open spec fn malformed_text(line: nat, reason: Seq<char>) -> Seq<char> {
    "malformed entry on line "@ + decimal(line) + ": "@ + reason
}

/// The sentence that describes a scenario error.
pub open spec fn fault_text(fault: ScenarioFault) -> Seq<char> {
    match fault {
        ScenarioFault::MissingVersion => "missing version header"@,
        ScenarioFault::InvalidVersion(text) => "invalid version: "@ + text,
        ScenarioFault::MalformedEntry { line, reason } => malformed_text(line, reason),
    }
}

impl ScenarioError {
    /// The sentence that describes this error.
    pub fn message(&self) -> (out: String)
        ensures
            out@ == fault_text(self@),
    {
        match self {
            ScenarioError::MissingVersion => String::from_str("missing version header"),
            ScenarioError::InvalidVersion(text) => {
                let mut out = String::from_str("invalid version: ");
                out.append(text.as_str());
                out
            },
            ScenarioError::MalformedEntry { line, reason } => {
                let mut out = String::from_str("malformed entry on line ");
                push_decimal(&mut out, *line as u64);
                out.append(": ");
                out.append(reason.as_str());
                out
            },
        }
    }
}

} // verus!
