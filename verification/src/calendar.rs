//! Reading and writing the hybrid date-or-Boolean markers.

use vstd::prelude::*;
use vstd::string::*;
use crate::common::{DateBool, Day, Instant, Scalar, ScalarView};
use crate::text::{decimal, decimal_string, digit, push_char, same_text};

verus! {

/// The moment that a text in the RFC 3339 format denotes, if it is one.
pub uninterp spec fn rfc3339_instant(text: Seq<char>) -> Option<Instant>;

/// The day that a text denotes under a `strftime` format, if it fits it.
pub uninterp spec fn formatted_day(text: Seq<char>, format: Seq<char>) -> Option<Day>;

/// A moment written in the RFC 3339 format, where the calendar can hold it
/// and its local time.
pub uninterp spec fn instant_text(instant: Instant) -> Option<Seq<char>>;

/// A day written as year, month and day, where the calendar can hold it.
pub uninterp spec fn day_text(day: Day) -> Option<Seq<char>>;

/// Calls `chrono::DateTime::parse_from_rfc3339` and takes the moment apart
/// with `timestamp`, `timestamp_subsec_nanos` and the offset's
/// `local_minus_utc`. The result depends on the text alone.
#[verifier::external_body]
pub(crate) fn parse_rfc3339(text: &str) -> (r: Option<Instant>)
    ensures
        r == rfc3339_instant(text@),
{
    match chrono::DateTime::parse_from_rfc3339(text) {
        Ok(t) => Some(
            Instant {
                seconds: t.timestamp(),
                nanos: t.timestamp_subsec_nanos(),
                offset: t.offset().local_minus_utc(),
            },
        ),
        Err(_) => None,
    }
}

/// Calls `chrono::NaiveDate::parse_from_str` and takes the day apart with
/// `year`, `month` and `day`. The result depends on the text and the format
/// alone.
#[verifier::external_body]
pub(crate) fn parse_day(text: &str, format: &str) -> (r: Option<Day>)
    ensures
        r == formatted_day(text@, format@),
{
    match chrono::NaiveDate::parse_from_str(text, format) {
        Ok(d) => Some(
            Day {
                year: chrono::Datelike::year(&d),
                month: chrono::Datelike::month(&d),
                day: chrono::Datelike::day(&d),
            },
        ),
        Err(_) => None,
    }
}

/// Rebuilds the moment with `chrono::DateTime::from_timestamp` and
/// `chrono::FixedOffset::east_opt`, asks `NaiveDateTime::checked_add_offset`
/// whether the calendar holds the local time, and writes the moment with
/// `to_rfc3339_opts`, the seconds' fraction as short as it can be and UTC
/// as `Z`. `None` where the calendar cannot hold the moment, the offset or
/// the local time.
#[verifier::external_body]
pub(crate) fn write_instant(instant: Instant) -> (r: Option<String>)
    ensures
        r is Some == instant_text(instant) is Some,
        r is Some ==> r->0@ == instant_text(instant)->0,
{
    let utc = chrono::DateTime::from_timestamp(instant.seconds, instant.nanos)?;
    let offset = chrono::FixedOffset::east_opt(instant.offset)?;
    utc.naive_utc().checked_add_offset(offset)?;
    Some(utc.with_timezone(&offset).to_rfc3339_opts(chrono::SecondsFormat::AutoSi, true))
}

/// Rebuilds the day with `chrono::NaiveDate::from_ymd_opt` and writes it as
/// its `Debug` form does. `None` where the calendar has no such day.
#[verifier::external_body]
pub(crate) fn write_day(day: Day) -> (r: Option<String>)
    ensures
        r is Some == day_text(day) is Some,
        r is Some ==> r->0@ == day_text(day)->0,
{
    let date = chrono::NaiveDate::from_ymd_opt(day.year, day.month, day.day)?;
    Some(format!("{:?}", date))
}

/// Calls `chrono::Local::now` and takes the moment apart as `parse_rfc3339`
/// does. Nothing is known of the clock.
#[verifier::external_body]
pub(crate) fn now() -> (r: Instant) {
    let t = chrono::Local::now();
    Instant {
        seconds: t.timestamp(),
        nanos: t.timestamp_subsec_nanos(),
        offset: chrono::Offset::fix(t.offset()).local_minus_utc(),
    }
}

/// Whether a character is one of the ten decimal digits.
pub open spec fn is_digit(c: char) -> bool {
    '0' <= c <= '9'
}

/// The number that a run of decimal digits writes.
pub open spec fn digits_value(s: Seq<char>) -> nat
    decreases s.len(),
{
    if s.len() == 0 {
        0
    } else {
        digits_value(s.drop_last()) * 10 + (s.last() as u32 - '0' as u32) as nat
    }
}

/// Whether a text holds decimal digits only.
pub open spec fn all_digits(s: Seq<char>) -> bool {
    forall|i: int| 0 <= i < s.len() ==> is_digit(#[trigger] s[i])
}

/// The number that a text writes as an unsigned 32-bit integer: decimal
/// digits, at least one, after an optional `+`, that stay within 32 bits.
pub open spec fn unsigned(s: Seq<char>) -> Option<u32> {
    let body = if s.len() > 0 && s[0] == '+' {
        s.skip(1)
    } else {
        s
    };
    if body.len() > 0 && all_digits(body) && digits_value(body) <= u32::MAX {
        Some(digits_value(body) as u32)
    } else {
        None
    }
}

/// The fields of `rest` between its hyphens, the first of them with
/// `current` before it.
pub open spec fn fields_after(current: Seq<char>, rest: Seq<char>) -> Seq<Seq<char>>
    decreases rest.len(),
{
    if rest.len() == 0 {
        seq![current]
    } else if rest[0] == '-' {
        seq![current] + fields_after(Seq::empty(), rest.skip(1))
    } else {
        fields_after(current.push(rest[0]), rest.skip(1))
    }
}

/// The fields of a text between its hyphens: one more than it has hyphens.
pub open spec fn fields(text: Seq<char>) -> Seq<Seq<char>> {
    fields_after(Seq::empty(), text)
}

/// The year and month of a text of the form year, month and day `0`: a date
/// known to the month only. The year has at most four digits' worth.
pub open spec fn year_month(text: Seq<char>) -> Option<(u32, u32)> {
    let parts = fields(text);
    if parts.len() == 3 {
        match (unsigned(parts[0]), unsigned(parts[1]), unsigned(parts[2])) {
            (Some(y), Some(m), Some(d)) => if y <= 9999 && 1 <= m <= 12 && d == 0 {
                Some((y, m))
            } else {
                None
            },
            _ => None,
        }
    } else {
        None
    }
}

/// What a text stands for, given what the calendar reads in it as a
/// moment, as a day written with slashes and as a day written with
/// hyphens: the first reading that succeeds, in that order, then a year and
/// month. The text of all zeros stands for `False`.
pub open spec fn classified(
    text: Seq<char>,
    stamp: Option<Instant>,
    slashed: Option<Day>,
    dashed: Option<Day>,
) -> Option<DateBool> {
    if text == "0000-00-00"@ {
        Some(DateBool::False)
    } else if let Some(t) = stamp {
        Some(DateBool::Timestamp(t))
    } else if let Some(d) = slashed {
        Some(DateBool::Date(d))
    } else if let Some(d) = dashed {
        Some(DateBool::Date(d))
    } else {
        match year_month(text) {
            Some((y, m)) => Some(DateBool::YearMonth(y, m)),
            None => None,
        }
    }
}

/// What a text stands for.
pub open spec fn parsed(text: Seq<char>) -> Option<DateBool> {
    classified(
        text,
        rfc3339_instant(text),
        formatted_day(text, "%Y/%m/%d"@),
        formatted_day(text, "%Y-%m-%d"@),
    )
}

/// The complaint about a text that stands for nothing.
pub open spec fn unrecognized(text: Seq<char>) -> Seq<char> {
    "unrecognized date(time) format: "@ + text
}

/// A number below one hundred written with two digits.
pub open spec fn two_digits(n: nat) -> Seq<char> {
    if n < 10 {
        seq!['0', digit(n)]
    } else {
        decimal(n)
    }
}

/// A year and month written as a date whose day is `00`.
pub open spec fn year_month_text(year: u32, month: u32) -> Seq<char> {
    decimal(year as nat) + seq!['-'] + two_digits(month as nat) + "-00"@
}

/// What a marker is stored as. `None` where it holds a moment or a day
/// that the calendar cannot write.
pub open spec fn stored(marker: DateBool) -> Option<ScalarView> {
    match marker {
        DateBool::False => Some(ScalarView::Null),
        DateBool::True => Some(ScalarView::Flag(true)),
        DateBool::Timestamp(t) => match instant_text(t) {
            Some(s) => Some(ScalarView::Text(s)),
            None => None,
        },
        DateBool::Date(d) => match day_text(d) {
            Some(s) => Some(ScalarView::Text(s)),
            None => None,
        },
        DateBool::YearMonth(y, m) => Some(ScalarView::Text(year_month_text(y, m))),
    }
}

/// What a stored value stands for: nothing and `false` for `False`,
/// `true` for `True`, a text for what `parsed` reads in it.
pub open spec fn restored(scalar: ScalarView) -> Option<DateBool> {
    match scalar {
        ScalarView::Null => Some(DateBool::False),
        ScalarView::Flag(v) => Some(if v { DateBool::True } else { DateBool::False }),
        ScalarView::Text(s) => parsed(s),
    }
}

/// `fields_after` when the first field grows by a character that is no
/// hyphen, and when a hyphen ends it.
proof fn lemma_fields_step(current: Seq<char>, rest: Seq<char>)
    requires
        rest.len() > 0,
    ensures
        rest[0] == '-' ==> fields_after(current, rest) == seq![current] + fields_after(
            Seq::empty(),
            rest.skip(1),
        ),
        rest[0] != '-' ==> fields_after(current, rest) == fields_after(
            current.push(rest[0]),
            rest.skip(1),
        ),
{
}

/// Splits a text at its hyphens.
fn split_fields(text: &str) -> (r: Vec<Vec<char>>)
    ensures
        r@.len() == fields(text@).len(),
        forall|i: int| 0 <= i < r@.len() ==> (#[trigger] r@[i])@ == fields(text@)[i],
{
    let n = text.unicode_len();
    let mut done: Vec<Vec<char>> = Vec::new();
    let mut current: Vec<char> = Vec::new();
    let mut i: usize = 0;
    proof {
        assert(text@.skip(0) =~= text@);
        assert(done@.map_values(|f: Vec<char>| f@) + fields_after(current@, text@) =~= fields(
            text@,
        ));
    }
    while i < n
        invariant
            n == text@.len(),
            i <= n,
            fields(text@) == done@.map_values(|f: Vec<char>| f@) + fields_after(
                current@,
                text@.skip(i as int),
            ),
        decreases n - i,
    {
        let c = text.get_char(i);
        proof {
            let rest = text@.skip(i as int);
            lemma_fields_step(current@, rest);
            assert(rest[0] == c);
            assert(rest.skip(1) =~= text@.skip(i + 1));
        }
        if c == '-' {
            let ghost before = done@.map_values(|f: Vec<char>| f@);
            let ghost field = current@;
            done.push(current);
            current = Vec::new();
            proof {
                assert(done@.map_values(|f: Vec<char>| f@) =~= before + seq![field]);
                assert(current@ =~= Seq::<char>::empty());
                assert((before + seq![field]) + fields_after(
                    Seq::empty(),
                    text@.skip(i + 1),
                ) =~= before + (seq![field] + fields_after(Seq::empty(), text@.skip(i + 1))));
            }
        } else {
            current.push(c);
        }
        i += 1;
    }
    let ghost before = done@.map_values(|f: Vec<char>| f@);
    let ghost field = current@;
    proof {
        assert(text@.skip(n as int).len() == 0);
    }
    done.push(current);
    proof {
        assert(done@.map_values(|f: Vec<char>| f@) =~= before + seq![field]);
        assert(fields(text@) == done@.map_values(|f: Vec<char>| f@));
    }
    done
}

/// The value of a run of digits is at least the value of any of its
/// beginnings.
proof fn lemma_digits_grow(s: Seq<char>, k: int)
    requires
        0 <= k <= s.len(),
        all_digits(s),
    ensures
        digits_value(s.take(k)) <= digits_value(s),
    decreases s.len() - k,
{
    if k == s.len() {
        assert(s.take(k) =~= s);
    } else {
        lemma_digits_grow(s, k + 1);
        assert(s.take(k + 1).drop_last() =~= s.take(k));
        assert(is_digit(s[k]));
    }
}

/// Reads an unsigned 32-bit integer as `str::parse` does.
fn parse_unsigned(chars: &Vec<char>) -> (r: Option<u32>)
    ensures
        r == unsigned(chars@),
{
    let n = chars.len();
    let start: usize = if n > 0 && chars[0] == '+' {
        1
    } else {
        0
    };
    let ghost body = if start == 1 {
        chars@.skip(1)
    } else {
        chars@
    };
    proof {
        assert(chars@.skip(0) =~= chars@);
    }
    if start == n {
        return None;
    }
    let mut acc: u64 = 0;
    let mut i: usize = start;
    while i < n
        invariant
            start <= i <= n,
            n == chars@.len(),
            body == chars@.skip(start as int),
            body == if chars@.len() > 0 && chars@[0] == '+' {
                chars@.skip(1)
            } else {
                chars@
            },
            all_digits(body.take(i - start)),
            acc == digits_value(body.take(i - start)),
            acc <= u32::MAX,
        decreases n - i,
    {
        let c = chars[i];
        proof {
            assert(body[i - start] == c);
            assert(body.take(i - start + 1).drop_last() =~= body.take(i - start));
        }
        if !('0' <= c && c <= '9') {
            assert(!is_digit(body[i - start]));
            return None;
        }
        let d: u64 = (c as u32 - '0' as u32) as u64;
        let next: u64 = acc * 10 + d;
        proof {
            assert forall|j: int| 0 <= j < i - start + 1 implies is_digit(
                #[trigger] body.take(i - start + 1)[j],
            ) by {
                if j < i - start {
                    assert(body.take(i - start)[j] == body[j]);
                }
            }
            assert(next == digits_value(body.take(i - start + 1)));
        }
        if next > 0xffff_ffff {
            proof {
                if all_digits(body) {
                    lemma_digits_grow(body, i - start + 1);
                }
            }
            return None;
        }
        acc = next;
        i += 1;
    }
    proof {
        assert(body.take(n - start) =~= body);
    }
    Some(acc as u32)
}

/// Reads a date that is known to the month only.
fn read_year_month(text: &str) -> (r: Option<(u32, u32)>)
    ensures
        r == year_month(text@),
{
    let parts = split_fields(text);
    if parts.len() != 3 {
        return None;
    }
    let year = parse_unsigned(&parts[0]);
    let month = parse_unsigned(&parts[1]);
    let day = parse_unsigned(&parts[2]);
    match (year, month, day) {
        (Some(y), Some(m), Some(d)) => {
            if y <= 9999 && m >= 1 && m <= 12 && d == 0 {
                Some((y, m))
            } else {
                None
            }
        },
        _ => None,
    }
}

/// Writes a date that is known to the month only.
fn write_year_month(year: u32, month: u32) -> (r: String)
    ensures
        r@ == year_month_text(year, month),
{
    let mut s = decimal_string(year as u64);
    push_char(&mut s, '-');
    if month < 10 {
        push_char(&mut s, '0');
        let d = decimal_string(month as u64);
        s.append(d.as_str());
        proof {
            assert(decimal(month as nat) =~= seq![digit(month as nat)]);
            assert(two_digits(month as nat) =~= seq!['0'] + decimal(month as nat));
        }
    } else {
        let d = decimal_string(month as u64);
        s.append(d.as_str());
    }
    s.append("-00");
    proof {
        assert(s@ =~= year_month_text(year, month));
    }
    s
}

impl DateBool {
    /// Decides what a text stands for, from the text and from what the
    /// calendar read in it.
    pub fn classify(
        text: &str,
        stamp: Option<Instant>,
        slashed: Option<Day>,
        dashed: Option<Day>,
    ) -> (r: Result<DateBool, String>)
        ensures
            match r {
                Ok(d) => classified(text@, stamp, slashed, dashed) == Some(d),
                Err(e) => classified(text@, stamp, slashed, dashed) is None && e@
                    == unrecognized(text@),
            },
    {
        if same_text(text, "0000-00-00") {
            return Ok(DateBool::False);
        }
        if let Some(t) = stamp {
            return Ok(DateBool::Timestamp(t));
        }
        if let Some(d) = slashed {
            return Ok(DateBool::Date(d));
        }
        if let Some(d) = dashed {
            return Ok(DateBool::Date(d));
        }
        match read_year_month(text) {
            Some((y, m)) => Ok(DateBool::YearMonth(y, m)),
            None => {
                let mut e = String::from_str("unrecognized date(time) format: ");
                e.append(text);
                Err(e)
            },
        }
    }

    /// Reads a marker from a text: the text of all zeros, a moment in the
    /// RFC 3339 format, a day written with slashes or with hyphens, or a
    /// year and month with the day `00`.
    pub fn parse(text: &str) -> (r: Result<DateBool, String>)
        ensures
            match r {
                Ok(d) => parsed(text@) == Some(d),
                Err(e) => parsed(text@) is None && e@ == unrecognized(text@),
            },
    {
        let stamp = parse_rfc3339(text);
        let slashed = parse_day(text, "%Y/%m/%d");
        let dashed = parse_day(text, "%Y-%m-%d");
        DateBool::classify(text, stamp, slashed, dashed)
    }

    /// The value that a marker is stored as.
    pub fn serialize(&self) -> (r: Option<Scalar>)
        ensures
            match r {
                Some(s) => stored(*self) == Some(s@),
                None => stored(*self) is None,
            },
    {
        match self {
            DateBool::False => Some(Scalar::Null),
            DateBool::True => Some(Scalar::Flag(true)),
            DateBool::Timestamp(t) => match write_instant(*t) {
                Some(s) => Some(Scalar::Text(s)),
                None => None,
            },
            DateBool::Date(d) => match write_day(*d) {
                Some(s) => Some(Scalar::Text(s)),
                None => None,
            },
            DateBool::YearMonth(y, m) => Some(Scalar::Text(write_year_month(*y, *m))),
        }
    }

    /// The marker that a stored value stands for.
    pub fn deserialize(scalar: &Scalar) -> (r: Result<DateBool, String>)
        ensures
            match r {
                Ok(d) => restored(scalar@) == Some(d),
                Err(e) => restored(scalar@) is None && (scalar@ matches ScalarView::Text(s) && e@
                    == unrecognized(s)),
            },
    {
        match scalar {
            Scalar::Null => Ok(DateBool::False),
            Scalar::Flag(v) => Ok(
                if *v {
                    DateBool::True
                } else {
                    DateBool::False
                },
            ),
            Scalar::Text(s) => DateBool::parse(s.as_str()),
        }
    }
}

/// A digit's character is a digit, and neither a hyphen nor a plus sign.
proof fn lemma_digit(d: nat)
    requires
        d < 10,
    ensures
        is_digit(digit(d)),
        (digit(d) as u32 - '0' as u32) as nat == d,
        digit(d) != '-',
        digit(d) != '+',
{
}

/// A number written in base ten is a run of digits, at least one, that
/// writes the number.
pub proof fn lemma_decimal_digits(n: nat)
    ensures
        decimal(n).len() > 0,
        all_digits(decimal(n)),
        digits_value(decimal(n)) == n,
    decreases n,
{
    let s = decimal(n);
    if n < 10 {
        lemma_digit(n);
        assert(s =~= seq![digit(n)]);
        assert(s.drop_last() =~= Seq::<char>::empty());
        assert(digits_value(s.drop_last()) == 0);
    } else {
        lemma_decimal_digits(n / 10);
        lemma_digit(n % 10);
        assert(s.drop_last() =~= decimal(n / 10));
        assert(s.last() == digit(n % 10));
        assert forall|i: int| 0 <= i < s.len() implies is_digit(#[trigger] s[i]) by {
            if i < s.len() - 1 {
                assert(s[i] == decimal(n / 10)[i]);
            }
        }
    }
}

/// A number below one hundred written with two digits is a run of digits,
/// at least one, that writes the number.
proof fn lemma_two_digits(n: nat)
    requires
        n < 100,
    ensures
        two_digits(n).len() > 0,
        all_digits(two_digits(n)),
        digits_value(two_digits(n)) == n,
{
    if n < 10 {
        lemma_digit(n);
        let s = two_digits(n);
        assert(s.drop_last() =~= seq!['0']);
        assert(seq!['0'].drop_last() =~= Seq::<char>::empty());
        assert(digits_value(seq!['0'].drop_last()) == 0);
        assert(digits_value(seq!['0']) == 0);
    } else {
        lemma_decimal_digits(n);
    }
}

/// A run without hyphens goes into the field that stands before it.
proof fn lemma_fields_run(current: Seq<char>, run: Seq<char>, rest: Seq<char>)
    requires
        forall|i: int| 0 <= i < run.len() ==> run[i] != '-',
    ensures
        fields_after(current, run + rest) == fields_after(current + run, rest),
    decreases run.len(),
{
    if run.len() == 0 {
        assert(run + rest =~= rest);
        assert(current + run =~= current);
    } else {
        let text = run + rest;
        assert(text[0] == run[0]);
        assert(text.skip(1) =~= run.skip(1) + rest);
        assert forall|i: int| 0 <= i < run.skip(1).len() implies run.skip(1)[i] != '-' by {
            assert(run.skip(1)[i] == run[i + 1]);
        }
        lemma_fields_run(current.push(run[0]), run.skip(1), rest);
        assert(current.push(run[0]) + run.skip(1) =~= current + run);
    }
}

/// The fields of a date written as a year, a month and the day `00`.
proof fn lemma_date_fields(year: Seq<char>, month: Seq<char>)
    requires
        all_digits(year),
        all_digits(month),
    ensures
        fields(year + seq!['-'] + month + "-00"@) == seq![year, month, seq!['0', '0']],
{
    reveal_strlit("-00");
    let day = seq!['0', '0'];
    let tail = "-00"@;
    let after_year = seq!['-'] + month + tail;
    let none = Seq::<char>::empty();
    assert(tail =~= seq!['-'] + day);
    assert(year + seq!['-'] + month + tail =~= year + after_year);
    assert forall|i: int| 0 <= i < year.len() implies year[i] != '-' by {
        assert(is_digit(year[i]));
    }
    assert forall|i: int| 0 <= i < month.len() implies month[i] != '-' by {
        assert(is_digit(month[i]));
    }
    lemma_fields_run(none, year, after_year);
    assert(none + year =~= year);
    assert(after_year[0] == '-');
    assert(after_year.skip(1) =~= month + tail);
    lemma_fields_run(none, month, tail);
    assert(none + month =~= month);
    assert(tail[0] == '-');
    assert(tail.skip(1) =~= day);
    lemma_fields_run(none, day, none);
    assert(day + none =~= day);
    assert(none + day =~= day);
    assert(fields_after(day, none) =~= seq![day]);
    assert(fields_after(month, tail) =~= seq![month] + seq![day]);
    assert(fields_after(year, after_year) =~= seq![year] + (seq![month] + seq![day]));
    assert(seq![year] + (seq![month] + seq![day]) =~= seq![year, month, day]);
}

/// A run of digits, at least one, that stays within 32 bits is read as the
/// number that it writes.
proof fn lemma_unsigned_digits(s: Seq<char>)
    requires
        s.len() > 0,
        all_digits(s),
        digits_value(s) <= u32::MAX,
    ensures
        unsigned(s) == Some(digits_value(s) as u32),
{
    assert(is_digit(s[0]));
}

/// What is written for a year and month is read back as that year and
/// month, where the calendar reads neither a moment nor a day in it: the
/// year with at most four digits, the month one of the twelve.
pub proof fn lemma_year_month_read_back(year: u32, month: u32)
    requires
        year <= 9999,
        1 <= month <= 12,
    ensures
        year_month(year_month_text(year, month)) == Some((year, month)),
        classified(year_month_text(year, month), None, None, None) == Some(
            DateBool::YearMonth(year, month),
        ),
{
    let y = decimal(year as nat);
    let m = two_digits(month as nat);
    let day = seq!['0', '0'];
    let text = year_month_text(year, month);
    lemma_decimal_digits(year as nat);
    lemma_two_digits(month as nat);
    lemma_date_fields(y, m);
    assert(day.drop_last() =~= seq!['0']);
    assert(seq!['0'].drop_last() =~= Seq::<char>::empty());
    assert(digits_value(seq!['0'].drop_last()) == 0);
    assert(digits_value(seq!['0']) == 0);
    assert(digits_value(day) == 0);
    lemma_unsigned_digits(y);
    lemma_unsigned_digits(m);
    lemma_unsigned_digits(day);
    assert(year_month(text) == Some((year, month)));
    if text == "0000-00-00"@ {
        reveal_strlit("0000-00-00");
        reveal_strlit("-00");
        let zeros = seq!['0', '0', '0', '0'];
        assert("0000-00-00"@ =~= zeros + seq!['-'] + day + "-00"@);
        lemma_date_fields(zeros, day);
        assert(fields(text)[1] == m);
        assert(fields(text)[1] == day);
    }
}

/// What a Boolean marker is stored as is read back as that marker.
pub proof fn lemma_flags_read_back(marker: DateBool)
    requires
        marker == DateBool::False || marker == DateBool::True,
    ensures
        stored(marker) matches Some(s) && restored(s) == Some(marker),
{
}

} // verus!
