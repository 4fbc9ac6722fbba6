//! A verified decimal integer scanner with the same observable behaviour as
//! the standard library's `FromStr` for unsigned integers: an optional sign,
//! then one or more ASCII digits, scanned left to right, reporting the first
//! problem found — an empty body, a non-digit, or a value past the limit.

use vstd::prelude::*;

verus! {

/// What stops a number from parsing, in the order the scan can meet it.
#[derive(Clone, Copy, Debug, PartialEq, Eq, Structural)]
pub enum NumErr {
    /// The digits were missing entirely.
    Empty,
    /// A character that is not an ASCII digit was met.
    InvalidDigit,
    /// The value would exceed the target type's maximum.
    TooLarge,
    /// The value was zero where a positive value is required.
    Zero,
}

pub open spec fn is_digit_char(c: char) -> bool {
    48 <= c as u32 <= 57
}

pub open spec fn digit_value(c: char) -> nat {
    (c as u32 - 48) as nat
}

pub open spec fn all_digits(s: Seq<char>) -> bool {
    forall|i: int| 0 <= i < s.len() ==> is_digit_char(s[i])
}

/// The value of a sequence of decimal digits, most significant first.
pub open spec fn digits_value(s: Seq<char>) -> nat
    decreases s.len(),
{
    if s.len() == 0 {
        0
    } else {
        digits_value(s.drop_last()) * 10 + digit_value(s.last())
    }
}

/// The length of the longest prefix of `s` made of ASCII digits.
pub open spec fn digit_prefix_len(s: Seq<char>) -> nat
    decreases s.len(),
{
    if s.len() == 0 || !is_digit_char(s[0]) {
        0
    } else {
        1 + digit_prefix_len(s.drop_first())
    }
}

/// `s` without one leading `+`, the sign `str::parse` accepts and ignores.
pub open spec fn strip_plus(s: Seq<char>) -> Seq<char> {
    if s.len() > 0 && s[0] == '+' {
        s.drop_first()
    } else {
        s
    }
}

/// The outcome of scanning `s` as an unsigned decimal number bounded by
/// `max`, mirroring `from_str_radix`: emptiness is checked first; then the
/// digits are consumed left to right, and the first offence — exceeding
/// `max`, or a non-digit — decides the error.
pub open spec fn scan_outcome(s: Seq<char>, max: nat) -> Result<nat, NumErr> {
    let k = digit_prefix_len(s) as int;
    if s.len() == 0 {
        Err(NumErr::Empty)
    } else if digits_value(s.take(k)) > max {
        Err(NumErr::TooLarge)
    } else if k < s.len() {
        Err(NumErr::InvalidDigit)
    } else {
        Ok(digits_value(s))
    }
}

/// The digit prefix length is the unique cut: all digits before it, and
/// either the end of the sequence or a non-digit right at it.
pub proof fn lemma_digit_prefix_len_is(s: Seq<char>, k: int)
    requires
        0 <= k <= s.len(),
        forall|i: int| 0 <= i < k ==> is_digit_char(s[i]),
        k == s.len() || !is_digit_char(s[k]),
    ensures
        digit_prefix_len(s) == k,
    decreases s.len(),
{
    if s.len() == 0 {
    } else if k == 0 {
    } else {
        assert(is_digit_char(s[0]));
        let t = s.drop_first();
        assert(forall|i: int| 0 <= i < k - 1 ==> t[i] == s[i + 1] && is_digit_char(t[i]));
        if k - 1 < t.len() {
            assert(t[k - 1] == s[k]);
        }
        lemma_digit_prefix_len_is(t, k - 1);
    }
}

/// Scanning one more digit multiplies the prefix value by ten and adds it.
pub proof fn lemma_digits_value_step(s: Seq<char>, i: int)
    requires
        0 <= i < s.len(),
    ensures
        digits_value(s.take(i + 1)) == digits_value(s.take(i)) * 10 + digit_value(s[i]),
{
    let p = s.take(i + 1);
    assert(p.drop_last() =~= s.take(i));
    assert(p.last() == s[i]);
}

/// Extending a digit prefix never lowers its value.
pub proof fn lemma_digits_value_monotone(s: Seq<char>, i: int, j: int)
    requires
        0 <= i <= j <= s.len(),
    ensures
        digits_value(s.take(i)) <= digits_value(s.take(j)),
    decreases j - i,
{
    if i < j {
        lemma_digits_value_monotone(s, i, j - 1);
        lemma_digits_value_step(s, j - 1);
        let v = digits_value(s.take(j - 1));
        assert(v <= v * 10);
    }
}

/// Scans `p[start..]` as an unsigned decimal number no greater than `max`.
pub fn scan_digits(p: &Vec<char>, start: usize, max: u64) -> (r: Result<u64, NumErr>)
    requires
        start <= p@.len(),
        max >= 9,
    ensures
        ({
            let s = p@.skip(start as int);
            match r {
                Ok(v) => v <= max && scan_outcome(s, max as nat) == Ok::<nat, NumErr>(v as nat),
                Err(e) => scan_outcome(s, max as nat) == Err::<nat, NumErr>(e),
            }
        }),
{
    let ghost s = p@.skip(start as int);
    let n = p.len();
    if start == n {
        return Err(NumErr::Empty);
    }
    let mut acc: u64 = 0;
    let mut i: usize = start;
    while i < n
        invariant
            start <= i <= n,
            n == p@.len(),
            s == p@.skip(start as int),
            max >= 9,
            forall|j: int| 0 <= j < i - start ==> is_digit_char(s[j]),
            acc <= max,
            acc as nat == digits_value(s.take((i - start) as int)),
        decreases n - i,
    {
        let ghost k = (i - start) as int;
        let c = p[i];
        proof {
            assert(s[k] == p@[i as int]);
        }
        let u = c as u32;
        if u < 48 || u > 57 {
            proof {
                lemma_digit_prefix_len_is(s, k);
                assert(s.len() > 0);
            }
            return Err(NumErr::InvalidDigit);
        }
        let d = (u - 48) as u64;
        if acc > (max - d) / 10 {
            proof {
                assert(acc * 10 + d > max) by (nonlinear_arith)
                    requires
                        acc > (max - d) / 10,
                        d <= max,
                        acc >= 0,
                        max >= 0,
                        d >= 0,
                ;
                lemma_digits_value_step(s, k);
                assert(digits_value(s.take(k + 1)) > max);
                let dp = digit_prefix_len(s) as int;
                assert(dp >= k + 1) by {
                    if dp < k + 1 {
                        lemma_digit_prefix_len_bounds(s);
                        assert(is_digit_char(s[dp]));
                        assert(false);
                    }
                }
                lemma_digit_prefix_len_bounds(s);
                lemma_digits_value_monotone(s, k + 1, dp);
                assert(s.len() > 0);
            }
            return Err(NumErr::TooLarge);
        }
        proof {
            assert(acc * 10 + d <= max) by (nonlinear_arith)
                requires
                    acc <= (max - d) / 10,
                    d <= max,
                    acc >= 0,
                    max >= 9,
                    d <= 9,
            ;
            lemma_digits_value_step(s, k);
        }
        acc = acc * 10 + d;
        i = i + 1;
    }
    proof {
        lemma_digit_prefix_len_is(s, s.len() as int);
        assert(s.take(s.len() as int) =~= s);
    }
    Ok(acc)
}

/// The digit prefix is made of digits and stops at a non-digit or the end.
pub proof fn lemma_digit_prefix_len_bounds(s: Seq<char>)
    ensures
        digit_prefix_len(s) <= s.len(),
        forall|i: int| 0 <= i < digit_prefix_len(s) ==> is_digit_char(s[i]),
        digit_prefix_len(s) < s.len() ==> !is_digit_char(s[digit_prefix_len(s) as int]),
    decreases s.len(),
{
    if s.len() > 0 && is_digit_char(s[0]) {
        let t = s.drop_first();
        lemma_digit_prefix_len_bounds(t);
        assert(forall|i: int| 0 <= i < t.len() ==> t[i] == s[i + 1]);
        assert forall|i: int| 0 <= i < digit_prefix_len(s) implies is_digit_char(s[i]) by {
            if i > 0 {
                assert(is_digit_char(t[i - 1]));
            }
        }
    }
}

/// The message each scanning fault reports, matching the standard parse
/// errors word for word.
pub open spec fn num_err_message(e: NumErr) -> Seq<char> {
    match e {
        NumErr::Empty => "cannot parse integer from empty string"@,
        NumErr::InvalidDigit => "invalid digit found in string"@,
        NumErr::TooLarge => "number too large to fit in target type"@,
        NumErr::Zero => "number would be zero for non-zero type"@,
    }
}

impl NumErr {
    /// Renders the fault as the standard parse errors word it.
    pub fn message(&self) -> (r: String)
        ensures
            r@ == num_err_message(*self),
    {
        match self {
            NumErr::Empty => "cannot parse integer from empty string".to_owned(),
            NumErr::InvalidDigit => "invalid digit found in string".to_owned(),
            NumErr::TooLarge => "number too large to fit in target type".to_owned(),
            NumErr::Zero => "number would be zero for non-zero type".to_owned(),
        }
    }
}

} // verus!
