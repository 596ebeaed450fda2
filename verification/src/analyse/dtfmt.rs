//! Bucket granularities and the timestamp display format matching each one.

use vstd::prelude::*;
use vstd::string::*;

use crate::strutil::push_char;

verus! {

/// The closed ladder of bucket granularities, finest first.
#[derive(Debug, PartialEq, Eq, Copy, Clone, Structural)]
pub enum DateTimeCat {
    Seconds,
    Minutes,
    Hours,
    Days,
    Months,
    Years,
}

/// The timestamp display format a renderer should use for labels of the
/// given granularity.
pub fn get_dt_fmt(dt_cat: &DateTimeCat) -> (r: String)
    ensures
        r@ == match *dt_cat {
            DateTimeCat::Seconds => "%Y-%m-%d %H:%M:%S"@,
            DateTimeCat::Minutes => "%Y-%m-%d %H:%M"@,
            DateTimeCat::Hours => "%Y-%m-%d %H:%M"@,
            DateTimeCat::Days => "%Y-%m-%d"@,
            DateTimeCat::Months => "%Y-%b"@,
            DateTimeCat::Years => "%Y"@,
        },
{
    match dt_cat {
        DateTimeCat::Seconds => String::from_str("%Y-%m-%d %H:%M:%S"),
        DateTimeCat::Minutes => String::from_str("%Y-%m-%d %H:%M"),
        DateTimeCat::Hours => String::from_str("%Y-%m-%d %H:%M"),
        DateTimeCat::Days => String::from_str("%Y-%m-%d"),
        DateTimeCat::Months => String::from_str("%Y-%b"),
        DateTimeCat::Years => String::from_str("%Y"),
    }
}

/// Raised when the datetime format yields a pattern the regular-expression
/// engine rejects.
#[derive(Debug, PartialEq, Eq, Copy, Clone, Structural)]
pub struct InvalidPatternError;

/// The format specifiers the translation knows.
pub open spec fn is_dt_spec_char(c: char) -> bool {
    c == 'Y' || c == 'y' || c == 'm' || c == 'b' || c == 'h' || c == 'B' || c == 'd' || c == 'e'
        || c == 'F' || c == 'H' || c == 'k' || c == 'I' || c == 'l' || c == 'P' || c == 'p' || c
        == 'M' || c == 'S'
}

/// The regular-expression fragment a format specifier stands for.
pub open spec fn dt_spec_expansion(c: char) -> Seq<char> {
    if c == 'Y' {
        "\\d{4}"@
    } else if c == 'y' || c == 'm' || c == 'd' || c == 'H' || c == 'I' || c == 'M' || c == 'S' {
        "\\d{2}"@
    } else if c == 'b' || c == 'h' {
        "(?i)(jan|feb|mar|apr|may|jun|jul|aug|sep|oct|nov|dec)"@
    } else if c == 'B' {
        "(?i)(january|february|march|april|may|june|july|august|september|october|november|december)"@
    } else if c == 'e' || c == 'k' || c == 'l' {
        "( |[1-9])[0-9]"@
    } else if c == 'P' {
        "(am|pm)"@
    } else if c == 'p' {
        "(AM|PM)"@
    } else {
        "\\d{4}-\\d{2}-\\d{2}"@
    }
}

/// The regular-expression pattern for a datetime format: each known `%`
/// specifier becomes its fragment, everything else is kept as it stands.
pub open spec fn spec_dt_pattern(s: Seq<char>) -> Seq<char>
    decreases s.len(),
{
    if s.len() == 0 {
        Seq::empty()
    } else if s[0] == '%' && s.len() >= 2 && is_dt_spec_char(s[1]) {
        dt_spec_expansion(s[1]) + spec_dt_pattern(s.skip(2))
    } else {
        seq![s[0]] + spec_dt_pattern(s.skip(1))
    }
}

/// Translates a datetime format into the regular-expression pattern that
/// locates a timestamp written in that format.
pub fn dt_fmt_pattern(dt_str: &str) -> (r: String)
    ensures
        r@ == spec_dt_pattern(dt_str@),
{
    let n = dt_str.unicode_len();
    let mut out = String::new();
    let mut i: usize = 0;
    proof {
        assert(dt_str@.skip(0) =~= dt_str@);
    }
    while i < n
        invariant
            0 <= i <= n,
            n == dt_str@.len(),
            out@ + spec_dt_pattern(dt_str@.skip(i as int)) == spec_dt_pattern(dt_str@),
        decreases n - i,
    {
        let c = dt_str.get_char(i);
        proof {
            assert(dt_str@.skip(i as int)[0] == c);
        }
        let mut expanded = false;
        if c == '%' && i + 1 < n {
            let c2 = dt_str.get_char(i + 1);
            proof {
                assert(dt_str@.skip(i as int)[1] == c2);
            }
            let fragment: Option<&str> = if c2 == 'Y' {
                Option::Some("\\d{4}")
            } else if c2 == 'y' || c2 == 'm' || c2 == 'd' || c2 == 'H' || c2 == 'I' || c2 == 'M'
                || c2 == 'S' {
                Option::Some("\\d{2}")
            } else if c2 == 'b' || c2 == 'h' {
                Option::Some("(?i)(jan|feb|mar|apr|may|jun|jul|aug|sep|oct|nov|dec)")
            } else if c2 == 'B' {
                Option::Some(
                    "(?i)(january|february|march|april|may|june|july|august|september|october|november|december)",
                )
            } else if c2 == 'e' || c2 == 'k' || c2 == 'l' {
                Option::Some("( |[1-9])[0-9]")
            } else if c2 == 'P' {
                Option::Some("(am|pm)")
            } else if c2 == 'p' {
                Option::Some("(AM|PM)")
            } else if c2 == 'F' {
                Option::Some("\\d{4}-\\d{2}-\\d{2}")
            } else {
                Option::None
            };
            match fragment {
                Option::Some(f) => {
                    proof {
                        assert(is_dt_spec_char(c2));
                        assert(f@ == dt_spec_expansion(c2));
                        assert(dt_str@.skip(i as int).skip(2) =~= dt_str@.skip(i + 2));
                    }
                    out.append(f);
                    proof {
                        assert(out@ + spec_dt_pattern(dt_str@.skip(i + 2)) =~= spec_dt_pattern(
                            dt_str@,
                        ));
                    }
                    i = i + 2;
                    expanded = true;
                },
                Option::None => {
                    proof {
                        assert(!is_dt_spec_char(c2));
                    }
                },
            }
        }
        if !expanded {
            push_char(&mut out, c);
            proof {
                assert(dt_str@.skip(i as int).skip(1) =~= dt_str@.skip(i + 1));
                assert(out@ + spec_dt_pattern(dt_str@.skip(i + 1)) =~= spec_dt_pattern(dt_str@));
            }
            i = i + 1;
        }
    }
    proof {
        assert(dt_str@.skip(n as int) =~= Seq::<char>::empty());
        assert(out@ =~= spec_dt_pattern(dt_str@));
    }
    out
}

#[verifier::external_type_specification]
#[verifier::external_body]
pub struct ExRegex(regex::Regex);

#[verifier::external_type_specification]
#[verifier::external_body]
pub struct ExRegexError(regex::Error);

/// Relies on `regex::Regex::new`: compiles the pattern, returning an error
/// exactly for a pattern that is invalid or beyond the engine's size limit.
#[verifier::external_body]
fn compile_regex(pattern: &str) -> (r: Result<regex::Regex, regex::Error>) {
    regex::Regex::new(pattern)
}

/// Builds from the datetime format the compiled regular expression that
/// locates a timestamp written in that format inside a raw log line; the
/// pattern handed to the engine is exactly `spec_dt_pattern` of the format.
pub fn dt_fmt_to_regex(dt_str: &str) -> (r: Result<regex::Regex, InvalidPatternError>) {
    let pattern = dt_fmt_pattern(dt_str);
    match compile_regex(pattern.as_str()) {
        Result::Ok(re) => Result::Ok(re),
        Result::Err(_) => Result::Err(InvalidPatternError),
    }
}

} // verus!
