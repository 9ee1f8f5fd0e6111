//! Dates in free text: finding explicit dates, tidying them, and resolving
//! relative mentions ("yesterday", "last year") against a session time.

use std::fmt::Write;
use vstd::prelude::*;

use chrono::Datelike;

use crate::text::{
    alphabetic, contains, find, first_occurrence, has_substring, i64_to_decimal, is_alphabetic,
    is_ascii_digit, is_digit, is_white, is_whitespace, last_occurrence, lowercase_of, rfind,
    signed_decimal, slice_chars, str_contains, string_from, to_chars, to_lowercase, trim,
    trim_chars,
};

verus! {

// ---------------------------------------------------------------------------
// Outside calls: regular expressions and the calendar
// ---------------------------------------------------------------------------

/// What `regex` finds: the text of the leftmost-first match of `pattern` in
/// `haystack`, or `None` when there is no match or the pattern does not compile.
pub uninterp spec fn regex_match(pattern: Seq<char>, haystack: Seq<char>) -> Option<Seq<char>>;

/// What `chrono::NaiveDate::parse_from_str(text, format)` yields, as the day
/// number counted by `Datelike::num_days_from_ce` (1 January of year 1 is day 1).
pub uninterp spec fn parsed_day(text: Seq<char>, format: Seq<char>) -> Option<i32>;

/// The calendar year (`Datelike::year`) of a day number, when chrono can
/// represent that day.
pub uninterp spec fn year_of_day(day: i32) -> Option<i32>;

/// The text that chrono writes for a day number with a `strftime` format, when
/// the day is representable and the format is valid.
pub uninterp spec fn formatted_day(day: i32, format: Seq<char>) -> Option<Seq<char>>;

/// Compiles `pattern` with `regex::Regex::new` and runs `Regex::find` on
/// `haystack`. Claimed: the result is the name `regex_match` of the two texts,
/// and a match is a substring of the haystack (`Match::as_str` returns the
/// matched part of the haystack). The regex semantics are not written out.
#[verifier::external_body]
fn regex_find(pattern: &str, haystack: &str) -> (res: Option<String>)
    ensures
        res matches Some(m) ==> regex_match(pattern@, haystack@) == Some(m@) && has_substring(
            haystack@,
            m@,
        ),
        res is None ==> regex_match(pattern@, haystack@) is None,
{
    regex::Regex::new(pattern).ok().and_then(|re| re.find(haystack).map(|m| m.as_str().to_string()))
}

/// `chrono::NaiveDate::parse_from_str`, returning the day number
/// (`num_days_from_ce`) of the parsed date. Claimed: the result is the name
/// `parsed_day` of the text and format; chrono's parser is not written out.
#[verifier::external_body]
fn parse_day(text: &str, format: &str) -> (res: Option<i32>)
    ensures
        res == parsed_day(text@, format@),
{
    chrono::NaiveDate::parse_from_str(text, format).ok().map(|d| d.num_days_from_ce())
}

/// `chrono::NaiveDate::from_num_days_from_ce_opt` followed by `Datelike::year`.
/// Claimed: the result is the name `year_of_day` of the day number.
#[verifier::external_body]
fn day_year(day: i32) -> (res: Option<i32>)
    ensures
        res == year_of_day(day),
{
    chrono::NaiveDate::from_num_days_from_ce_opt(day).map(|d| d.year())
}

/// `chrono::NaiveDate::from_num_days_from_ce_opt` followed by
/// `NaiveDate::format`, written into a `String`; `None` when the day is out of
/// chrono's range or the format cannot be written. Claimed: the result is the
/// name `formatted_day` of the day number and format.
#[verifier::external_body]
fn format_day(day: i32, format: &str) -> (res: Option<String>)
    ensures
        res matches Some(s) ==> formatted_day(day, format@) == Some(s@),
        res is None ==> formatted_day(day, format@) is None,
{
    let date = chrono::NaiveDate::from_num_days_from_ce_opt(day)?;
    let mut out = String::new();
    write!(out, "{}", date.format(format)).ok()?;
    Some(out)
}

// ---------------------------------------------------------------------------
// Specifications
// ---------------------------------------------------------------------------

/// Day, month name and four-digit year: "7 May 2023".
pub open spec fn day_month_year() -> Seq<char> {
    "(?i)\\b\\d{1,2}\\s+[A-Za-z]+\\s+\\d{4}\\b"@
}

/// Month name, day, comma and year: "May 7, 2023".
pub open spec fn month_day_year() -> Seq<char> {
    "(?i)\\b[A-Za-z]+\\s+\\d{1,2},\\s+\\d{4}\\b"@
}

/// A year of the twentieth or twenty-first century.
pub open spec fn bare_year() -> Seq<char> {
    "\\b(19|20)\\d{2}\\b"@
}

/// The date patterns, in the order they are tried.
pub open spec fn date_patterns() -> Seq<Seq<char>> {
    seq![day_month_year(), month_day_year(), bare_year()]
}

/// The field between the first and the second comma (`split(',').nth(1)`).
pub open spec fn second_comma_field(t: Seq<char>) -> Option<Seq<char>> {
    match first_occurrence(t, seq![',']) {
        None => None,
        Some(c) => {
            let rest = t.subrange(c + 1, t.len() as int);
            match first_occurrence(rest, seq![',']) {
                Some(d) => Some(rest.subrange(0, d)),
                None => Some(rest),
            }
        },
    }
}

/// Some character of `s` is an ASCII digit.
pub open spec fn any_digit(s: Seq<char>) -> bool {
    exists|i: int| 0 <= i < s.len() && is_digit(#[trigger] s[i])
}

/// Every character of `s` is an ASCII digit.
pub open spec fn all_digits(s: Seq<char>) -> bool {
    forall|i: int| 0 <= i < s.len() ==> is_digit(#[trigger] s[i])
}

/// Every character of `s` is alphabetic.
pub open spec fn all_alphabetic(s: Seq<char>) -> bool {
    forall|i: int| 0 <= i < s.len() ==> alphabetic(#[trigger] s[i])
}

/// Every character of `s` is a digit, a colon or whitespace (a clock time).
pub open spec fn clock_chars(s: Seq<char>) -> bool {
    forall|i: int| 0 <= i < s.len() ==> (is_digit(#[trigger] s[i]) || s[i] == ':' || is_white(s[i]))
}

/// The readable form of a date mention.
///
/// "Monday on 7 May 2023" keeps what follows the last " on " (adding the year
/// after the first comma when that part lacks it), "7 May 2023, 18:00" drops
/// the clock time, and "8 May, 2023" is kept as it is.
pub open spec fn clean_date_spec(text: Seq<char>) -> Seq<char> {
    let t = trim(text);
    match last_occurrence(t, " on "@) {
        Some(i) => {
            let after_on = t.subrange(i + 4, t.len() as int);
            match second_comma_field(t) {
                Some(field) if trim(field).len() > 0 && !has_substring(after_on, trim(field)) =>
                    trim(after_on) + seq![' '] + trim(field),
                _ => trim(after_on),
            }
        },
        None => match first_occurrence(t, seq![',']) {
            Some(c) => {
                let before = trim(t.subrange(0, c));
                let after = trim(t.subrange(c + 1, t.len() as int));
                if any_digit(before) && has_substring(after, seq![':']) && clock_chars(after) {
                    before
                } else if all_digits(before) || all_alphabetic(before) {
                    before + ", "@ + after
                } else {
                    t
                }
            },
            None => t,
        },
    }
}

/// The first date that one of the patterns finds, tried in order, tidied.
pub open spec fn date_answer_from(text: Seq<char>, patterns: Seq<Seq<char>>) -> Option<Seq<char>>
    decreases patterns.len(),
{
    if patterns.len() == 0 {
        None
    } else {
        match regex_match(patterns[0], text) {
            Some(m) => Some(clean_date_spec(m)),
            None => date_answer_from(text, patterns.drop_first()),
        }
    }
}

/// The explicit date that `text` mentions, if any.
pub open spec fn date_answer(text: Seq<char>) -> Option<Seq<char>> {
    date_answer_from(text, date_patterns())
}

/// Which date mention answers: a day-month-year mention ("7 May 2023") when
/// the text has one; otherwise a month-day-year mention ("May 7, 2023"),
/// whole and not only its year; otherwise a bare year; each tidied.
pub proof fn law_date_pattern_precedence(text: Seq<char>)
    ensures
        regex_match(day_month_year(), text) matches Some(m) ==> date_answer(text) == Some(
            clean_date_spec(m),
        ),
        regex_match(day_month_year(), text) is None ==> (regex_match(month_day_year(), text) matches Some(m)
            ==> date_answer(text) == Some(clean_date_spec(m))),
        regex_match(day_month_year(), text) is None && regex_match(month_day_year(), text) is None
            ==> date_answer(text) == match regex_match(bare_year(), text) {
            Some(m) => Some(clean_date_spec(m)),
            None => None,
        },
{
    let ps = date_patterns();
    assert(ps[0] == day_month_year());
    let p1 = ps.drop_first();
    assert(p1[0] == month_day_year());
    let p2 = p1.drop_first();
    assert(p2[0] == bare_year());
    assert(p2.drop_first() =~= Seq::<Seq<char>>::empty());
    assert(date_answer_from(text, p2.drop_first()) is None);
    assert(regex_match(bare_year(), text) is None ==> date_answer_from(text, p2) is None);
    assert(regex_match(day_month_year(), text) is None ==> date_answer(text) == date_answer_from(text, p1));
    assert(regex_match(month_day_year(), text) is None ==> date_answer_from(text, p1) == date_answer_from(
        text,
        p2,
    ));
}

/// The date part of a session time such as "1:56 pm on 8 May, 2023".
pub open spec fn session_date_text(session_time: Seq<char>) -> Seq<char> {
    match last_occurrence(session_time, " on "@) {
        Some(i) => trim(session_time.subrange(i + 4, session_time.len() as int)),
        None => trim(session_time),
    }
}

/// The day number of a session time.
pub open spec fn session_day(session_time: Seq<char>) -> Option<i32> {
    parsed_day(session_date_text(session_time), "%e %B, %Y"@)
}

/// The day before `day`, written as "7 May 2023".
pub open spec fn day_before_text(day: i32) -> Option<Seq<char>> {
    if day > i32::MIN {
        formatted_day((day - 1) as i32, "%-d %B %Y"@)
    } else {
        None
    }
}

/// The year before the year of `day`, in decimal.
pub open spec fn year_before_text(day: i32) -> Option<Seq<char>> {
    match year_of_day(day) {
        Some(y) => Some(signed_decimal(y - 1)),
        None => None,
    }
}

/// A relative date in `text` ("yesterday", "last year") resolved against the
/// day `day`.
pub open spec fn relative_date_for_day(text: Seq<char>, day: i32) -> Option<Seq<char>> {
    let lowered = lowercase_of(text);
    if has_substring(lowered, "yesterday"@) {
        day_before_text(day)
    } else if has_substring(lowered, "last year"@) {
        year_before_text(day)
    } else {
        None
    }
}

/// A relative date in `text` ("yesterday", "last year") resolved against the
/// session time.
pub open spec fn relative_date_answer(text: Seq<char>, session_time: Seq<char>) -> Option<
    Seq<char>,
> {
    match session_day(session_time) {
        None => None,
        Some(day) => relative_date_for_day(text, day),
    }
}

/// `text` mentions a date, explicitly or relatively.
pub open spec fn temporal_signal(text: Seq<char>) -> bool {
    let lowered = lowercase_of(text);
    date_answer(text) is Some || has_substring(lowered, "yesterday"@) || has_substring(
        lowered,
        "last year"@,
    ) || has_substring(lowered, "last month"@) || has_substring(lowered, "last week"@)
}

// ---------------------------------------------------------------------------
// Implementation
// ---------------------------------------------------------------------------

/// Some character of `v` is an ASCII digit.
fn has_digit(v: &Vec<char>) -> (b: bool)
    ensures
        b == any_digit(v@),
{
    let mut i: usize = 0;
    while i < v.len()
        invariant
            i <= v.len(),
            forall|j: int| 0 <= j < i ==> !is_digit(#[trigger] v@[j]),
        decreases v.len() - i,
    {
        if is_ascii_digit(v[i]) {
            return true;
        }
        i += 1;
    }
    false
}

/// Every character of `v` is an ASCII digit.
fn only_digits(v: &Vec<char>) -> (b: bool)
    ensures
        b == all_digits(v@),
{
    let mut i: usize = 0;
    while i < v.len()
        invariant
            i <= v.len(),
            forall|j: int| 0 <= j < i ==> is_digit(#[trigger] v@[j]),
        decreases v.len() - i,
    {
        if !is_ascii_digit(v[i]) {
            return false;
        }
        i += 1;
    }
    true
}

/// Every character of `v` is alphabetic.
fn only_alphabetic(v: &Vec<char>) -> (b: bool)
    ensures
        b == all_alphabetic(v@),
{
    let mut i: usize = 0;
    while i < v.len()
        invariant
            i <= v.len(),
            forall|j: int| 0 <= j < i ==> alphabetic(#[trigger] v@[j]),
        decreases v.len() - i,
    {
        if !is_alphabetic(v[i]) {
            return false;
        }
        i += 1;
    }
    true
}

/// Every character of `v` is a digit, a colon or whitespace.
fn only_clock_chars(v: &Vec<char>) -> (b: bool)
    ensures
        b == clock_chars(v@),
{
    let mut i: usize = 0;
    while i < v.len()
        invariant
            i <= v.len(),
            forall|j: int|
                0 <= j < i ==> (is_digit(#[trigger] v@[j]) || v@[j] == ':' || is_white(v@[j])),
        decreases v.len() - i,
    {
        let c = v[i];
        if !(is_ascii_digit(c) || c == ':' || is_whitespace(c)) {
            return false;
        }
        i += 1;
    }
    true
}

/// The field between the first and the second comma of `t`.
fn comma_field(t: &Vec<char>) -> (r: Option<Vec<char>>)
    ensures
        r matches Some(f) ==> second_comma_field(t@) == Some(f@),
        r is None ==> second_comma_field(t@) is None,
{
    let comma = vec![','];
    assert(comma@ == seq![',']);
    assert(comma@.len() == 1);
    match find(t, &comma) {
        None => None,
        Some(c) => {
            let n = t.len();
            let rest = slice_chars(t, c + 1, n);
            match find(&rest, &comma) {
                Some(d) => Some(slice_chars(&rest, 0, d)),
                None => Some(rest),
            }
        },
    }
}

/// Tidies a date mention (see `clean_date_spec`).
pub fn clean_date(text: &str) -> (r: String)
    ensures
        r@ == clean_date_spec(text@),
{
    let t = trim_chars(&to_chars(text));
    let on = to_chars(" on ");
    proof {
        reveal_strlit(" on ");
    }
    match rfind(&t, &on) {
        Some(i) => {
            let after_on = slice_chars(&t, i + 4, t.len());
            let tidy_after = trim_chars(&after_on);
            match comma_field(&t) {
                Some(field) => {
                    let year = trim_chars(&field);
                    if year.len() > 0 && !contains(&after_on, &year) {
                        let mut out = tidy_after;
                        out.push(' ');
                        let mut k: usize = 0;
                        let ghost start = out@;
                        while k < year.len()
                            invariant
                                k <= year.len(),
                                out@ == start + year@.subrange(0, k as int),
                            decreases year.len() - k,
                        {
                            out.push(year[k]);
                            assert(year@.subrange(0, k + 1) == year@.subrange(0, k as int).push(
                                year@[k as int],
                            ));
                            k += 1;
                        }
                        assert(year@.subrange(0, year@.len() as int) == year@);
                        string_from(&out)
                    } else {
                        string_from(&tidy_after)
                    }
                },
                None => string_from(&tidy_after),
            }
        },
        None => {
            let comma = vec![','];
            assert(comma@ == seq![',']);
            match find(&t, &comma) {
                Some(c) => {
                    let before = trim_chars(&slice_chars(&t, 0, c));
                    let after = trim_chars(&slice_chars(&t, c + 1, t.len()));
                    let colon = vec![':'];
                    assert(colon@ == seq![':']);
                    if has_digit(&before) && contains(&after, &colon) && only_clock_chars(&after) {
                        string_from(&before)
                    } else if only_digits(&before) || only_alphabetic(&before) {
                        let mut out = string_from(&before);
                        out.append(", ");
                        let rest = string_from(&after);
                        out.append(rest.as_str());
                        out
                    } else {
                        string_from(&t)
                    }
                },
                None => string_from(&t),
            }
        },
    }
}

/// The first explicit date in `text` that the date patterns find, tidied.
pub fn extract_date_answer(text: &str) -> (r: Option<String>)
    ensures
        r matches Some(s) ==> date_answer(text@) == Some(s@),
        r is None ==> date_answer(text@) is None,
{
    let patterns: [&str; 3] = [
        "(?i)\\b\\d{1,2}\\s+[A-Za-z]+\\s+\\d{4}\\b",
        "(?i)\\b[A-Za-z]+\\s+\\d{1,2},\\s+\\d{4}\\b",
        "\\b(19|20)\\d{2}\\b",
    ];
    proof {
        reveal_strlit("(?i)\\b\\d{1,2}\\s+[A-Za-z]+\\s+\\d{4}\\b");
        reveal_strlit("(?i)\\b[A-Za-z]+\\s+\\d{1,2},\\s+\\d{4}\\b");
        reveal_strlit("\\b(19|20)\\d{2}\\b");
    }
    let ghost all = date_patterns();
    assert(all.drop_first().drop_first().drop_first() =~= Seq::<Seq<char>>::empty());
    assert(all.subrange(0, 3) =~= all);
    let mut k: usize = 0;
    while k < 3
        invariant
            k <= 3,
            all == date_patterns(),
            forall|j: int| 0 <= j < 3 ==> (#[trigger] patterns@[j])@ == all[j],
            date_answer(text@) == date_answer_from(text@, all.subrange(k as int, 3)),
        decreases 3 - k,
    {
        let ghost rest = all.subrange(k as int, 3);
        assert(rest[0] == all[k as int]);
        assert(rest.drop_first() =~= all.subrange(k + 1, 3));
        match regex_find(patterns[k], text) {
            Some(found) => {
                return Some(clean_date(found.as_str()));
            },
            None => {},
        }
        k += 1;
    }
    None
}

/// The date part of a session time, without the clock time before " on ".
fn session_date_part(session_time: &str) -> (r: String)
    ensures
        r@ == session_date_text(session_time@),
{
    let st = to_chars(session_time);
    let on = to_chars(" on ");
    proof {
        reveal_strlit(" on ");
    }
    assert(on@.len() == 4);
    match rfind(&st, &on) {
        Some(i) => {
            let n = st.len();
            string_from(&trim_chars(&slice_chars(&st, i + 4, n)))
        },
        None => string_from(&trim_chars(&st)),
    }
}

/// Resolves "yesterday" and "last year" in `text` against the date of the
/// session time ("1:56 pm on 8 May, 2023").
pub fn extract_relative_date_answer(text: &str, session_time: &str) -> (r: Option<String>)
    ensures
        r matches Some(s) ==> relative_date_answer(text@, session_time@) == Some(s@),
        r is None ==> relative_date_answer(text@, session_time@) is None,
{
    let date_text = session_date_part(session_time);
    let day = match parse_day(date_text.as_str(), "%e %B, %Y") {
        Some(d) => d,
        None => {
            proof {
                reveal_strlit("%e %B, %Y");
            }
            return None;
        },
    };
    proof {
        reveal_strlit("%e %B, %Y");
    }
    relative_date_on_day(text, day)
}

/// Resolves "yesterday" and "last year" in `text` against the day number
/// `day` (as `num_days_from_ce` counts).
pub fn relative_date_on_day(text: &str, day: i32) -> (r: Option<String>)
    ensures
        r matches Some(s) ==> relative_date_for_day(text@, day) == Some(s@),
        r is None ==> relative_date_for_day(text@, day) is None,
{
    let lowered = to_lowercase(text);
    if str_contains(lowered.as_str(), "yesterday") {
        if day > i32::MIN {
            format_day(day - 1, "%-d %B %Y")
        } else {
            None
        }
    } else if str_contains(lowered.as_str(), "last year") {
        match day_year(day) {
            Some(y) => Some(i64_to_decimal(y as i64 - 1)),
            None => None,
        }
    } else {
        None
    }
}

/// `text` mentions a date, explicitly or relatively.
pub fn has_temporal_signal(text: &str) -> (b: bool)
    ensures
        b == temporal_signal(text@),
{
    let lowered = to_lowercase(text);
    extract_date_answer(text).is_some() || str_contains(lowered.as_str(), "yesterday")
        || str_contains(lowered.as_str(), "last year") || str_contains(
        lowered.as_str(),
        "last month",
    ) || str_contains(lowered.as_str(), "last week")
}

} // verus!
