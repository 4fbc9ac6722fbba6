//! Calendar dates as a user writes them: a year between 99 and 9999, and an
//! optional month given as a number or as a case-insensitive prefix of an
//! English month name.

use crate::numbers::{scan_outcome, strip_plus, NumErr};
use crate::text;
use vstd::prelude::*;

verus! {

/// A month number, 1 through 12.
#[derive(Debug, Clone, Copy, PartialEq, Eq, Structural)]
pub struct Month(pub u32);

/// A year number, 99 through 9999.
#[derive(Debug, Clone, Copy, PartialEq, Eq, Structural)]
pub struct Year(pub i32);

/// A parsed date: a year, and a month when one was given.
#[derive(Debug, Clone, Copy)]
pub struct Date {
    pub year: Year,
    pub month: Option<Month>,
}

/// Why a date failed to parse.
#[derive(Debug, Clone, Copy, PartialEq, Eq, Structural)]
pub enum DateError {
    /// A numeric part failed to parse.
    Number(NumErr),
    /// The year parsed but lies outside 99 through 9999.
    YearRange(i32),
    /// The month parsed but lies outside 1 through 12.
    MonthRange(u32),
    /// The date was not `YEAR` or `MONTH YEAR`.
    Format,
}

/// What `str::to_lowercase` maps a string to: a function of the characters
/// alone, by the Unicode lowercasing tables.
pub uninterp spec fn lower_of(s: Seq<char>) -> Seq<char>;

/// Relies on `str::to_lowercase`: the result depends on the characters alone.
#[verifier::external_body]
fn to_lowercase(s: &str) -> (r: String)
    ensures
        r@ == lower_of(s@),
{
    s.to_lowercase()
}

/// The English month names, in calendar order.
pub open spec fn spec_month_name(i: int) -> Seq<char> {
    if i == 0 {
        "January"@
    } else if i == 1 {
        "February"@
    } else if i == 2 {
        "March"@
    } else if i == 3 {
        "April"@
    } else if i == 4 {
        "May"@
    } else if i == 5 {
        "June"@
    } else if i == 6 {
        "July"@
    } else if i == 7 {
        "August"@
    } else if i == 8 {
        "September"@
    } else if i == 9 {
        "October"@
    } else if i == 10 {
        "November"@
    } else {
        "December"@
    }
}

/// The name of month `i`, counted from zero.
pub fn month_name(i: usize) -> (r: &'static str)
    requires
        i < 12,
    ensures
        r@ == spec_month_name(i as int),
{
    match i {
        0 => "January",
        1 => "February",
        2 => "March",
        3 => "April",
        4 => "May",
        5 => "June",
        6 => "July",
        7 => "August",
        8 => "September",
        9 => "October",
        10 => "November",
        _ => "December",
    }
}

/// Whether the lowercased query is a prefix of month `i`'s lowercased name.
pub open spec fn name_matches(query: Seq<char>, i: int) -> bool {
    let name = lower_of(spec_month_name(i));
    name.len() >= query.len() && name.take(query.len() as int) == query
}

/// The first month index at or after `k` whose name the query matches, or 12.
pub open spec fn first_name_match(query: Seq<char>, k: int) -> int
    decreases 12 - k,
{
    if k < 0 || k >= 12 {
        12
    } else if name_matches(query, k) {
        k
    } else {
        first_name_match(query, k + 1)
    }
}

proof fn lemma_first_name_match(query: Seq<char>, k: int, i: int)
    requires
        0 <= k <= i <= 12,
        forall|j: int| k <= j < i ==> !name_matches(query, j),
        i == 12 || name_matches(query, i),
    ensures
        first_name_match(query, k) == i,
    decreases i - k,
{
    if k < i {
        lemma_first_name_match(query, k + 1, i);
    }
}

/// The outcome of parsing a year: a signed decimal number that must lie
/// between 99 and 9999.
pub open spec fn year_outcome(s: Seq<char>) -> Result<i32, DateError> {
    let neg = s.len() > 0 && s[0] == '-';
    let body = if s.len() > 0 && (s[0] == '-' || s[0] == '+') {
        s.drop_first()
    } else {
        s
    };
    let max: nat = if neg {
        0x8000_0000
    } else {
        0x7fff_ffff
    };
    match scan_outcome(body, max) {
        Err(e) => Err(DateError::Number(e)),
        Ok(v) => {
            let y = if neg {
                -(v as int)
            } else {
                v as int
            };
            if 99 <= y <= 9999 {
                Ok(y as i32)
            } else {
                Err(DateError::YearRange(y as i32))
            }
        },
    }
}

/// The outcome of parsing a month: the first English month name whose
/// lowercased form starts with the lowercased text; failing that, a decimal
/// number that must lie between 1 and 12.
pub open spec fn month_outcome(s: Seq<char>) -> Result<u32, DateError> {
    let q = lower_of(s);
    let m = first_name_match(q, 0);
    if m < 12 {
        Ok((m + 1) as u32)
    } else {
        match scan_outcome(strip_plus(q), u32::MAX as nat) {
            Err(e) => Err(DateError::Number(e)),
            Ok(v) => if 1 <= v <= 12 {
                Ok(v as u32)
            } else {
                Err(DateError::MonthRange(v as u32))
            },
        }
    }
}

/// The outcome of parsing a date: one part is a year, two parts are a month
/// and a year — the year checked first — and anything else is malformed.
pub open spec fn date_outcome(s: Seq<char>) -> Result<Date, DateError> {
    let parts = text::split_chars(s, ' ');
    if parts.len() == 1 {
        match year_outcome(parts[0]) {
            Err(e) => Err(e),
            Ok(y) => Ok(Date { year: Year(y), month: None }),
        }
    } else if parts.len() == 2 {
        match year_outcome(parts[1]) {
            Err(e) => Err(e),
            Ok(y) => match month_outcome(parts[0]) {
                Err(e) => Err(e),
                Ok(m) => Ok(Date { year: Year(y), month: Some(Month(m)) }),
            },
        }
    } else {
        Err(DateError::Format)
    }
}

impl Date {
    /// Parses a year: an optionally signed decimal number between 99 and
    /// 9999.
    pub fn parse_year(year_text: &str) -> (r: Result<Year, DateError>)
        ensures
            match r {
                Ok(y) => year_outcome(year_text@) == Ok::<i32, DateError>(y.0),
                Err(e) => year_outcome(year_text@) == Err::<i32, DateError>(e),
            },
    {
        let chars = text::chars_of(year_text);
        let plus = chars.len() > 0 && chars[0] == '+';
        let minus = chars.len() > 0 && chars[0] == '-';
        let start: usize = if plus || minus {
            1
        } else {
            0
        };
        let max: u64 = if minus {
            0x8000_0000
        } else {
            0x7fff_ffff
        };
        proof {
            if start == 1 {
                assert(chars@.drop_first() =~= chars@.skip(1));
            } else {
                assert(chars@.skip(0) =~= chars@);
            }
        }
        match crate::numbers::scan_digits(&chars, start, max) {
            Err(e) => Err(DateError::Number(e)),
            Ok(v) => {
                let y: i32 = if minus {
                    (-(v as i64)) as i32
                } else {
                    v as i32
                };
                if 99 <= y && y <= 9999 {
                    Ok(Year(y))
                } else {
                    Err(DateError::YearRange(y))
                }
            },
        }
    }

    /// Parses a month: a case-insensitive prefix of an English month name,
    /// or a decimal number between 1 and 12.
    pub fn parse_month(month_text: &str) -> (r: Result<Month, DateError>)
        ensures
            match r {
                Ok(m) => month_outcome(month_text@) == Ok::<u32, DateError>(m.0),
                Err(e) => month_outcome(month_text@) == Err::<u32, DateError>(e),
            },
    {
        let lowered = to_lowercase(month_text);
        let q = text::chars_of(lowered.as_str());
        let ghost qv = lower_of(month_text@);
        let mut i: usize = 0;
        while i < 12
            invariant
                i <= 12,
                q@ == qv,
                qv == lower_of(month_text@),
                forall|j: int| 0 <= j < i ==> !name_matches(qv, j),
            decreases 12 - i,
        {
            let lowered_name = to_lowercase(month_name(i));
            let name_chars = text::chars_of(lowered_name.as_str());
            if text::has_prefix(&name_chars, &q) {
                proof {
                    assert(name_matches(qv, i as int));
                    lemma_first_name_match(qv, 0, i as int);
                }
                return Ok(Month((i as u32) + 1));
            }
            proof {
                assert(!name_matches(qv, i as int));
            }
            i = i + 1;
        }
        proof {
            lemma_first_name_match(qv, 0, 12);
        }
        let start: usize = if q.len() > 0 && q[0] == '+' {
            1
        } else {
            0
        };
        proof {
            if start == 1 {
                assert(strip_plus(qv) =~= q@.skip(1));
            } else {
                assert(strip_plus(qv) =~= q@.skip(0));
            }
        }
        match crate::numbers::scan_digits(&q, start, 0xffff_ffff) {
            Err(e) => Err(DateError::Number(e)),
            Ok(v) => {
                if 1 <= v && v <= 12 {
                    Ok(Month(v as u32))
                } else {
                    Err(DateError::MonthRange(v as u32))
                }
            },
        }
    }

    /// Parses a date written as `YEAR` or as `MONTH YEAR`.
    pub fn parse(date: &str) -> (r: Result<Date, DateError>)
        ensures
            match r {
                Ok(d) => date_outcome(date@) == Ok::<Date, DateError>(d),
                Err(e) => date_outcome(date@) == Err::<Date, DateError>(e),
            },
    {
        let chars = text::chars_of(date);
        let parts = text::split_on(&chars, ' ');
        let ghost pviews = parts@.map_values(|p: Vec<char>| p@);
        if parts.len() == 1 {
            let part = text::chars_to_string(&parts[0]);
            proof {
                assert(pviews[0] == parts@[0]@);
            }
            match Date::parse_year(part.as_str()) {
                Err(e) => Err(e),
                Ok(year) => Ok(Date { year, month: None }),
            }
        } else if parts.len() == 2 {
            let month_part = text::chars_to_string(&parts[0]);
            let year_part = text::chars_to_string(&parts[1]);
            proof {
                assert(pviews[0] == parts@[0]@);
                assert(pviews[1] == parts@[1]@);
            }
            match Date::parse_year(year_part.as_str()) {
                Err(e) => Err(e),
                Ok(year) => match Date::parse_month(month_part.as_str()) {
                    Err(e) => Err(e),
                    Ok(month) => Ok(Date { year, month: Some(month) }),
                },
            }
        } else {
            Err(DateError::Format)
        }
    }
}

/// The message each date fault reports.
pub open spec fn date_error_message(e: DateError) -> Seq<char> {
    match e {
        DateError::Number(n) => crate::numbers::num_err_message(n),
        DateError::YearRange(y) => "year "@.add(text::signed_decimal_chars(y as int)).add(
            " not in the range [99,9999]"@,
        ),
        DateError::MonthRange(m) => "month "@.add(text::decimal_chars(m as nat)).add(
            " not in the range [1,12]"@,
        ),
        DateError::Format => "invalid date format"@,
    }
}

impl DateError {
    /// Renders the fault as the date parser reports it.
    pub fn message(&self) -> (r: String)
        ensures
            r@ == date_error_message(*self),
    {
        match self {
            DateError::Number(n) => n.message(),
            DateError::YearRange(y) => {
                let mut s = String::new();
                s.append("year ");
                let digits = text::signed_decimal_of(*y as i64);
                let rendered = text::chars_to_string(&digits);
                s.append(rendered.as_str());
                s.append(" not in the range [99,9999]");
                s
            },
            DateError::MonthRange(m) => {
                let mut s = String::new();
                s.append("month ");
                let digits = text::decimal_of(*m as u64);
                let rendered = text::chars_to_string(&digits);
                s.append(rendered.as_str());
                s.append(" not in the range [1,12]");
                s
            },
            DateError::Format => "invalid date format".to_owned(),
        }
    }
}

} // verus!
