//! Regular expressions and date formats, from the crates that know them.

use chrono::NaiveDate;
use regex::{NoExpand, Regex};
use std::fmt::Write;
use vstd::prelude::*;
use vstd::utf8::{encode_utf8, is_char_boundary};

verus! {

/// Why `regex` does not take a pattern, where it does not.
pub uninterp spec fn regex_error(pattern: Seq<char>) -> Option<Seq<char>>;

/// A text with every match of a pattern replaced, `$1` in the replacement
/// standing for the first group and so on; nothing where the pattern does
/// not compile.
pub uninterp spec fn regex_replaced(
    pattern: Seq<char>,
    text: Seq<char>,
    with: Seq<char>,
) -> Option<Seq<char>>;

/// A text with every match of a pattern replaced by `with` as it stands;
/// nothing where the pattern does not compile.
pub uninterp spec fn regex_replaced_plainly(
    pattern: Seq<char>,
    text: Seq<char>,
    with: Seq<char>,
) -> Option<Seq<char>>;

/// From which byte up to which the first match of a pattern stands in a
/// text; nothing where there is none or the pattern does not compile.
pub uninterp spec fn regex_found(pattern: Seq<char>, text: Seq<char>) -> Option<(nat, nat)>;

/// A date and time of day in a `chrono` format; nothing where there is no
/// such date or time, or the format is none.
pub uninterp spec fn chrono_formatted(
    year: i32,
    month: u32,
    day: u32,
    hour: u32,
    minute: u32,
    second: u32,
    nano: u32,
    format: Seq<char>,
) -> Option<Seq<char>>;

/// Whether `c` means something to a regular expression.
pub open spec fn meta_character(c: char) -> bool {
    seq![
        '\\', '.', '+', '*', '?', '(', ')', '|', '[', ']', '{', '}', '^', '$', '#', '&', '-', '~',
    ].contains(c)
}

/// `s` with a backslash before each character that means something to a
/// regular expression.
pub open spec fn escaped_of(s: Seq<char>) -> Seq<char>
    decreases s.len(),
{
    if s.len() == 0 {
        Seq::empty()
    } else if meta_character(s.last()) {
        escaped_of(s.drop_last()).push('\\').push(s.last())
    } else {
        escaped_of(s.drop_last()).push(s.last())
    }
}

/// `regex::escape`: `text` with a backslash before each character of the
/// crate's list of those that mean something.
#[verifier::external_body]
pub(crate) fn escape(text: &str) -> (r: String)
    ensures
        r@ == escaped_of(text@),
{
    regex::escape(text)
}

/// `regex::Regex::new`: why it does not take `pattern`, or nothing where it
/// does, a function of `pattern` alone.
#[verifier::external_body]
pub(crate) fn problem_with(pattern: &str) -> (r: Option<String>)
    ensures
        match r {
            Some(why) => regex_error(pattern@) == Some(why@),
            None => regex_error(pattern@) is None,
        },
{
    Regex::new(pattern).err().map(|e| e.to_string())
}

/// `regex::Regex::replace_all` with a text as the replacement, in which the
/// groups of the match are expanded: a function of the three texts alone,
/// with a result wherever the pattern compiles.
#[verifier::external_body]
pub(crate) fn replace_matches(pattern: &str, text: &str, with: &str) -> (r: Option<String>)
    ensures
        match r {
            Some(s) => regex_replaced(pattern@, text@, with@) == Some(s@) && regex_error(
                pattern@,
            ) is None,
            None => regex_replaced(pattern@, text@, with@) is None && regex_error(
                pattern@,
            ) is Some,
        },
{
    let regex = Regex::new(pattern).ok()?;
    Some(regex.replace_all(text, with).into_owned())
}

/// `regex::Regex::replace_all` with `regex::NoExpand`, which puts `with` in
/// as it stands: a function of the three texts alone, with a result wherever
/// the pattern compiles.
#[verifier::external_body]
pub(crate) fn replace_matches_plainly(pattern: &str, text: &str, with: &str) -> (r: Option<String>)
    ensures
        match r {
            Some(s) => regex_replaced_plainly(pattern@, text@, with@) == Some(s@) && regex_error(
                pattern@,
            ) is None,
            None => regex_replaced_plainly(pattern@, text@, with@) is None && regex_error(
                pattern@,
            ) is Some,
        },
{
    let regex = Regex::new(pattern).ok()?;
    Some(regex.replace_all(text, NoExpand(with)).into_owned())
}

/// `regex::Regex::find`: where the first match starts and ends in the bytes
/// of `text`, always between two characters. A function of the two texts
/// alone.
#[verifier::external_body]
pub(crate) fn find_match(pattern: &str, text: &str) -> (r: Option<(usize, usize)>)
    ensures
        match r {
            Some((start, end)) => {
                &&& regex_found(pattern@, text@) == Some((start as nat, end as nat))
                &&& start <= end <= encode_utf8(text@).len()
                &&& is_char_boundary(encode_utf8(text@), start as int)
                &&& is_char_boundary(encode_utf8(text@), end as int)
            },
            None => regex_found(pattern@, text@) is None,
        },
{
    let regex = Regex::new(pattern).ok()?;
    regex.find(text).map(|m| (m.start(), m.end()))
}

/// A date and a time of day.
#[derive(Debug, Clone, Copy, PartialEq, Eq, Structural)]
pub struct Moment {
    pub year: i32,
    pub month: u32,
    pub day: u32,
    pub hour: u32,
    pub minute: u32,
    pub second: u32,
    pub nano: u32,
}

/// `when` in a `chrono` format.
pub open spec fn formatted(when: Moment, format: Seq<char>) -> Option<Seq<char>> {
    chrono_formatted(
        when.year,
        when.month,
        when.day,
        when.hour,
        when.minute,
        when.second,
        when.nano,
        format,
    )
}

/// `chrono::NaiveDateTime::format`, written out: the date and time in
/// `format`, or nothing where the date is none, the time is none or the
/// format does not work. A function of the numbers and the format alone.
#[verifier::external_body]
pub(crate) fn format_moment(when: Moment, format: &str) -> (r: Option<String>)
    ensures
        crate::wav::text_view(r) == chrono_formatted(
            when.year,
            when.month,
            when.day,
            when.hour,
            when.minute,
            when.second,
            when.nano,
            format@,
        ),
{
    let date = NaiveDate::from_ymd_opt(when.year, when.month, when.day)?;
    let at = date.and_hms_nano_opt(when.hour, when.minute, when.second, when.nano)?;
    let mut out = String::new();
    write!(out, "{}", at.format(format)).ok()?;
    Some(out)
}

} // verus!
