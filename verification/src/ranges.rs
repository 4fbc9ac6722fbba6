//! The range-specification grammar and its parser: a specification is a
//! comma-separated list of tokens, each token one positive number `N` or a
//! pair `A-B`, one-based on input and zero-based once parsed. A descending
//! pair such as `2-1` is a valid range traversed backwards, not an error.

use crate::numbers::{
    digits_value, scan_digits, scan_outcome, strip_plus, NumErr,
};
use crate::text;
use vstd::prelude::*;

verus! {

/// One parsed range: an inclusive pair of zero-based indices. `start` may
/// exceed `end`; such a range is traversed from `start` down to `end`.
#[derive(Clone, Copy, Debug, PartialEq, Eq, Structural)]
pub struct RangeSpec {
    pub start: usize,
    pub end: usize,
}

/// Why a token was rejected.
#[derive(Clone, Copy, Debug, PartialEq, Eq, Structural)]
pub enum RangeErrKind {
    /// One of the token's numeric parts failed to parse.
    Number(NumErr),
    /// The token split into more than two parts on `-`.
    Malformed,
}

/// A rejected range token, with everything its report needs.
#[derive(Debug)]
pub struct RangeError {
    /// The offending token, as it stood after trimming.
    pub token: String,
    /// Why it was rejected.
    pub kind: RangeErrKind,
    /// How many parts the token split into on `-`.
    pub parts: usize,
}

/// The outcome of parsing one numeric part: an optional leading `+`, then
/// digits giving a positive value that fits an index.
pub open spec fn number_outcome(p: Seq<char>) -> Result<nat, NumErr> {
    match scan_outcome(strip_plus(p), usize::MAX as nat) {
        Ok(v) => if v == 0 {
            Err(NumErr::Zero)
        } else {
            Ok(v)
        },
        Err(e) => Err(e),
    }
}

/// The values of a token's parts, or the first part's failure.
pub open spec fn parts_values(parts: Seq<Seq<char>>) -> Result<Seq<nat>, NumErr>
    decreases parts.len(),
{
    if parts.len() == 0 {
        Ok(Seq::<nat>::empty())
    } else {
        match number_outcome(parts[0]) {
            Err(e) => Err(e),
            Ok(v) => match parts_values(parts.drop_first()) {
                Err(e) => Err(e),
                Ok(vs) => Ok(seq![v].add(vs)),
            },
        }
    }
}

proof fn lemma_parts_values_ok(parts: Seq<Seq<char>>)
    requires
        forall|j: int| 0 <= j < parts.len() ==> (#[trigger] number_outcome(parts[j])) is Ok,
    ensures
        parts_values(parts) is Ok,
        parts_values(parts)->Ok_0.len() == parts.len(),
        forall|j: int|
            0 <= j < parts.len() ==> parts_values(parts)->Ok_0[j] == (
            #[trigger] number_outcome(parts[j]))->Ok_0,
    decreases parts.len(),
{
    if parts.len() > 0 {
        let t = parts.drop_first();
        assert(forall|j: int| 0 <= j < t.len() ==> t[j] == parts[j + 1]);
        lemma_parts_values_ok(t);
        let vs = parts_values(t)->Ok_0;
        let v0 = number_outcome(parts[0])->Ok_0;
        assert(parts_values(parts)->Ok_0 == seq![v0].add(vs));
        assert forall|j: int| 0 <= j < parts.len() implies parts_values(parts)->Ok_0[j] == (
        #[trigger] number_outcome(parts[j]))->Ok_0 by {
            if j > 0 {
                assert(vs[j - 1] == number_outcome(t[j - 1])->Ok_0);
                assert(t[j - 1] == parts[j]);
            }
        }
    }
}

proof fn lemma_parts_values_err(parts: Seq<Seq<char>>, i: int)
    requires
        0 <= i < parts.len(),
        forall|j: int| 0 <= j < i ==> (#[trigger] number_outcome(parts[j])) is Ok,
        number_outcome(parts[i]) is Err,
    ensures
        parts_values(parts) == Err::<Seq<nat>, NumErr>(number_outcome(parts[i])->Err_0),
    decreases i,
{
    if i > 0 {
        let t = parts.drop_first();
        assert(forall|j: int| 0 <= j < t.len() ==> t[j] == parts[j + 1]);
        lemma_parts_values_err(t, i - 1);
    }
}

/// The outcome of parsing one token: split on `-`, parse each part, and
/// build the zero-based inclusive range. One part `N` gives `(N-1, N-1)`;
/// two parts `A-B` give `(A-1, B-1)` whatever the order of `A` and `B`.
pub open spec fn token_outcome(t: Seq<char>) -> Result<RangeSpec, RangeErrKind> {
    let parts = text::split_chars(t, '-');
    match parts_values(parts) {
        Err(e) => Err(RangeErrKind::Number(e)),
        Ok(vals) => if parts.len() == 1 {
            Ok(RangeSpec { start: (vals[0] - 1) as usize, end: (vals[0] - 1) as usize })
        } else if parts.len() == 2 {
            Ok(RangeSpec { start: (vals[0] - 1) as usize, end: (vals[1] - 1) as usize })
        } else {
            Err(RangeErrKind::Malformed)
        },
    }
}

/// The outcome of parsing a whole specification: split on `,`, trim each
/// token, and parse the tokens in order; the first failing token decides.
pub open spec fn ranges_outcome(s: Seq<char>) -> Result<Seq<RangeSpec>, (Seq<char>, RangeErrKind)> {
    tokens_outcome(text::split_chars(s, ',').map_values(|t: Seq<char>| text::trim_spec(t)))
}

/// The ranges of a token list, or the first failing token with its fault.
pub open spec fn tokens_outcome(tokens: Seq<Seq<char>>) -> Result<
    Seq<RangeSpec>,
    (Seq<char>, RangeErrKind),
>
    decreases tokens.len(),
{
    if tokens.len() == 0 {
        Ok(Seq::<RangeSpec>::empty())
    } else {
        match token_outcome(tokens[0]) {
            Err(k) => Err((tokens[0], k)),
            Ok(rs) => match tokens_outcome(tokens.drop_first()) {
                Err(p) => Err(p),
                Ok(v) => Ok(seq![rs].add(v)),
            },
        }
    }
}

proof fn lemma_tokens_outcome_ok(tokens: Seq<Seq<char>>)
    requires
        forall|j: int| 0 <= j < tokens.len() ==> (#[trigger] token_outcome(tokens[j])) is Ok,
    ensures
        tokens_outcome(tokens) is Ok,
        tokens_outcome(tokens)->Ok_0.len() == tokens.len(),
        forall|j: int|
            0 <= j < tokens.len() ==> tokens_outcome(tokens)->Ok_0[j] == (
            #[trigger] token_outcome(tokens[j]))->Ok_0,
    decreases tokens.len(),
{
    if tokens.len() > 0 {
        let t = tokens.drop_first();
        assert(forall|j: int| 0 <= j < t.len() ==> t[j] == tokens[j + 1]);
        lemma_tokens_outcome_ok(t);
        let vs = tokens_outcome(t)->Ok_0;
        let r0 = token_outcome(tokens[0])->Ok_0;
        assert(tokens_outcome(tokens)->Ok_0 == seq![r0].add(vs));
        assert forall|j: int| 0 <= j < tokens.len() implies tokens_outcome(tokens)->Ok_0[j] == (
        #[trigger] token_outcome(tokens[j]))->Ok_0 by {
            if j > 0 {
                assert(vs[j - 1] == token_outcome(t[j - 1])->Ok_0);
                assert(t[j - 1] == tokens[j]);
            }
        }
    }
}

proof fn lemma_tokens_outcome_err(tokens: Seq<Seq<char>>, i: int)
    requires
        0 <= i < tokens.len(),
        forall|j: int| 0 <= j < i ==> (#[trigger] token_outcome(tokens[j])) is Ok,
        token_outcome(tokens[i]) is Err,
    ensures
        tokens_outcome(tokens) == Err::<Seq<RangeSpec>, (Seq<char>, RangeErrKind)>(
            (tokens[i], token_outcome(tokens[i])->Err_0),
        ),
    decreases i,
{
    if i > 0 {
        let t = tokens.drop_first();
        assert(forall|j: int| 0 <= j < t.len() ==> t[j] == tokens[j + 1]);
        lemma_tokens_outcome_err(t, i - 1);
    }
}

/// Parses one numeric part of a token.
fn parse_number(part: &Vec<char>) -> (r: Result<usize, NumErr>)
    ensures
        match r {
            Ok(v) => v >= 1 && number_outcome(part@) == Ok::<nat, NumErr>(v as nat),
            Err(e) => number_outcome(part@) == Err::<nat, NumErr>(e),
        },
{
    let start: usize = if part.len() > 0 && part[0] == '+' {
        1
    } else {
        0
    };
    proof {
        if start == 1 {
            assert(strip_plus(part@) =~= part@.skip(1));
        } else {
            assert(strip_plus(part@) =~= part@.skip(0));
        }
    }
    match scan_digits(part, start, usize::MAX as u64) {
        Err(e) => Err(e),
        Ok(v) => {
            if v == 0 {
                Err(NumErr::Zero)
            } else {
                Ok(v as usize)
            }
        },
    }
}

/// Parses one token held as characters; an error reports the fault and the
/// number of `-`-separated parts.
fn parse_token_chars(tok: &Vec<char>) -> (r: Result<RangeSpec, (RangeErrKind, usize)>)
    ensures
        match r {
            Ok(rs) => token_outcome(tok@) == Ok::<RangeSpec, RangeErrKind>(rs),
            Err(e) => token_outcome(tok@) == Err::<RangeSpec, RangeErrKind>(e.0) && e.1
                == text::split_chars(tok@, '-').len(),
        },
{
    let parts = text::split_on(tok, '-');
    let ghost pviews = parts@.map_values(|p: Vec<char>| p@);
    let n = parts.len();
    let mut values: Vec<usize> = Vec::new();
    let mut i: usize = 0;
    while i < n
        invariant
            n == parts@.len(),
            pviews == parts@.map_values(|p: Vec<char>| p@),
            pviews == text::split_chars(tok@, '-'),
            i <= n,
            values@.len() == i,
            forall|j: int|
                0 <= j < i ==> (#[trigger] number_outcome(pviews[j])) == Ok::<nat, NumErr>(
                    values@[j] as nat,
                ) && values@[j] >= 1,
        decreases n - i,
    {
        match parse_number(&parts[i]) {
            Err(e) => {
                proof {
                    lemma_parts_values_err(pviews, i as int);
                }
                return Err((RangeErrKind::Number(e), n));
            },
            Ok(v) => {
                values.push(v);
            },
        }
        i = i + 1;
    }
    proof {
        lemma_parts_values_ok(pviews);
        text::lemma_split_chars_len(tok@, '-');
        if n >= 1 {
            assert(number_outcome(pviews[0]) == Ok::<nat, NumErr>(values@[0] as nat)
                && values@[0] >= 1);
        }
        if n >= 2 {
            assert(number_outcome(pviews[1]) == Ok::<nat, NumErr>(values@[1] as nat)
                && values@[1] >= 1);
        }
    }
    if n == 1 {
        let v = values[0];
        Ok(RangeSpec { start: v - 1, end: v - 1 })
    } else if n == 2 {
        let a = values[0];
        let b = values[1];
        Ok(RangeSpec { start: a - 1, end: b - 1 })
    } else {
        Err((RangeErrKind::Malformed, n))
    }
}

/// Parses one range token such as `5`, `1-3` or `10-2`.
pub fn parse_range(text: &str) -> (r: Result<RangeSpec, RangeError>)
    ensures
        match r {
            Ok(rs) => token_outcome(text@) == Ok::<RangeSpec, RangeErrKind>(rs),
            Err(e) => token_outcome(text@) is Err && e.kind == token_outcome(text@)->Err_0
                && e.token@ == text@ && e.parts == crate::text::split_chars(text@, '-').len(),
        },
{
    let tok = text::chars_of(text);
    match parse_token_chars(&tok) {
        Ok(rs) => Ok(rs),
        Err((kind, parts)) => Err(RangeError { token: text.to_owned(), kind, parts }),
    }
}

/// Parses a whole range specification such as `1,7,3-5`; the first failing
/// token aborts the parse and is reported.
pub fn parse_ranges(text: &str) -> (r: Result<Vec<RangeSpec>, RangeError>)
    ensures
        match r {
            Ok(v) => ranges_outcome(text@) == Ok::<Seq<RangeSpec>, (Seq<char>, RangeErrKind)>(v@),
            Err(e) => ranges_outcome(text@) is Err && {
                let (tok, kind) = ranges_outcome(text@)->Err_0;
                e.kind == kind && e.token@ == tok && e.parts == crate::text::split_chars(
                    tok,
                    '-',
                ).len()
            },
        },
{
    let chars = text::chars_of(text);
    let pieces = text::split_on(&chars, ',');
    let ghost tokens = text::split_chars(text@, ',').map_values(|t: Seq<char>| text::trim_spec(t));
    let n = pieces.len();
    let mut out: Vec<RangeSpec> = Vec::new();
    let mut i: usize = 0;
    while i < n
        invariant
            n == pieces@.len(),
            pieces@.map_values(|p: Vec<char>| p@) == text::split_chars(text@, ','),
            tokens == text::split_chars(text@, ',').map_values(|t: Seq<char>| text::trim_spec(t)),
            i <= n,
            out@.len() == i,
            forall|j: int|
                0 <= j < i ==> (#[trigger] token_outcome(tokens[j])) == Ok::<
                    RangeSpec,
                    RangeErrKind,
                >(out@[j]),
        decreases n - i,
    {
        let trimmed = text::trim_chars(&pieces[i]);
        proof {
            assert(pieces@.map_values(|p: Vec<char>| p@)[i as int] == pieces@[i as int]@);
            assert(tokens[i as int] == text::trim_spec(pieces@[i as int]@));
        }
        match parse_token_chars(&trimmed) {
            Err((kind, parts)) => {
                proof {
                    lemma_tokens_outcome_err(tokens, i as int);
                }
                let token = text::chars_to_string(&trimmed);
                return Err(RangeError { token, kind, parts });
            },
            Ok(rs) => {
                out.push(rs);
            },
        }
        i = i + 1;
    }
    proof {
        lemma_tokens_outcome_ok(tokens);
        assert forall|j: int| 0 <= j < out@.len() implies tokens_outcome(tokens)->Ok_0[j]
            == out@[j] by {
            assert(token_outcome(tokens[j]) == Ok::<RangeSpec, RangeErrKind>(out@[j]));
        }
        assert(tokens_outcome(tokens)->Ok_0 =~= out@);
    }
    Ok(out)
}

/// The message a rejected token reports.
pub open spec fn range_error_message(token: Seq<char>, kind: RangeErrKind, parts: nat) -> Seq<
    char,
> {
    "Invalid range '"@.add(token).add("' - "@).add(
        match kind {
            RangeErrKind::Number(NumErr::Empty) => "cannot parse integer from empty string"@,
            RangeErrKind::Number(NumErr::InvalidDigit) => "invalid digit found in string"@,
            RangeErrKind::Number(NumErr::TooLarge) => "number too large to fit in target type"@,
            RangeErrKind::Number(NumErr::Zero) => "number would be zero for non-zero type"@,
            RangeErrKind::Malformed => "wrong number of range parts "@.add(
                text::decimal_chars(parts),
            ),
        },
    )
}

impl RangeError {
    /// Renders the error as the parser reports it.
    pub fn message(&self) -> (r: String)
        ensures
            r@ == range_error_message(self.token@, self.kind, self.parts as nat),
    {
        let mut s = String::new();
        s.append("Invalid range '");
        s.append(self.token.as_str());
        s.append("' - ");
        match self.kind {
            RangeErrKind::Number(NumErr::Empty) => s.append(
                "cannot parse integer from empty string",
            ),
            RangeErrKind::Number(NumErr::InvalidDigit) => s.append(
                "invalid digit found in string",
            ),
            RangeErrKind::Number(NumErr::TooLarge) => s.append(
                "number too large to fit in target type",
            ),
            RangeErrKind::Number(NumErr::Zero) => s.append(
                "number would be zero for non-zero type",
            ),
            RangeErrKind::Malformed => {
                s.append("wrong number of range parts ");
                let digits = text::decimal_of(self.parts as u64);
                let rendered = text::chars_to_string(&digits);
                s.append(rendered.as_str());
            },
        }
        s
    }
}

/// The positions visited walking from `a` to `b` inclusive, one step at a
/// time, in the direction `b` lies from `a`.
pub open spec fn span_seq(a: usize, b: usize) -> Seq<usize>
    decreases (if a <= b {
        b - a
    } else {
        a - b
    }),
{
    if a == b {
        seq![a]
    } else if a < b {
        seq![a].add(span_seq((a + 1) as usize, b))
    } else {
        seq![a].add(span_seq((a - 1) as usize, b))
    }
}

/// The full index sequence of a range list: each range expanded in its own
/// direction, ranges in list order, repeats and overlaps kept.
pub open spec fn ranges_indices(rs: Seq<RangeSpec>) -> Seq<usize>
    decreases rs.len(),
{
    if rs.len() == 0 {
        Seq::<usize>::empty()
    } else {
        span_seq(rs[0].start, rs[0].end).add(ranges_indices(rs.drop_first()))
    }
}

/// An ascending range `(a, b)` with `a <= b` yields exactly
/// `a, a+1, ..., b`: `b - a + 1` positions with position `i` equal to `a + i`.
pub proof fn lemma_ascending_span(a: usize, b: usize)
    requires
        a <= b,
    ensures
        span_seq(a, b).len() == b - a + 1,
        forall|i: int| 0 <= i <= b - a ==> span_seq(a, b)[i] == a + i,
    decreases b - a,
{
    if a < b {
        lemma_ascending_span((a + 1) as usize, b);
    }
}

/// A descending range `(a, b)` with `a >= b` yields exactly
/// `a, a-1, ..., b`: `a - b + 1` positions with position `i` equal to
/// `a - i` — no repeats and no skipped values.
pub proof fn lemma_descending_span(a: usize, b: usize)
    requires
        b <= a,
    ensures
        span_seq(a, b).len() == a - b + 1,
        forall|i: int| 0 <= i <= a - b ==> span_seq(a, b)[i] == a - i,
    decreases a - b,
{
    if b < a {
        lemma_descending_span((a - 1) as usize, b);
    }
}

/// The index sequence of a single range is exactly its span: with the span
/// lemmas, a fresh cursor over one descending range `(a, b)` with `a > b`
/// has exactly `a, a-1, ..., b` to produce.
pub proof fn lemma_single_range_indices(r: RangeSpec)
    ensures
        ranges_indices(seq![r]) == span_seq(r.start, r.end),
{
    assert(seq![r].drop_first() =~= Seq::<RangeSpec>::empty());
    assert(ranges_indices(Seq::<RangeSpec>::empty()) == Seq::<usize>::empty());
    assert(span_seq(r.start, r.end).add(Seq::<usize>::empty()) =~= span_seq(r.start, r.end));
}

/// A lazy cursor over the index sequence of a range list: an outer cursor
/// into the list and an inner cursor within the current range. No expanded
/// index list is ever materialised.
pub struct RangeIter {
    ranges: Vec<RangeSpec>,
    outer: usize,
    inner: Option<usize>,
}

impl RangeIter {
    /// The inner cursor, when set, sits on the path of the current range.
    pub closed spec fn wf(self) -> bool {
        match self.inner {
            None => true,
            Some(v) => self.outer < self.ranges@.len() && {
                let r = self.ranges@[self.outer as int];
                if r.start <= r.end {
                    r.start <= v <= r.end
                } else {
                    r.end <= v <= r.start
                }
            },
        }
    }

    /// The indices this cursor has yet to produce.
    pub closed spec fn remaining(self) -> Seq<usize> {
        if self.outer >= self.ranges@.len() {
            Seq::<usize>::empty()
        } else {
            let tail = ranges_indices(self.ranges@.skip(self.outer + 1 as int));
            match self.inner {
                None => ranges_indices(self.ranges@.skip(self.outer as int)),
                Some(v) => span_seq(v, self.ranges@[self.outer as int].end).add(tail),
            }
        }
    }

    /// A fresh cursor over `ranges`, set to produce its whole index sequence.
    pub fn new(ranges: &Vec<RangeSpec>) -> (it: RangeIter)
        ensures
            it.wf(),
            it.remaining() == ranges_indices(ranges@),
    {
        let mut copy: Vec<RangeSpec> = Vec::new();
        let mut i: usize = 0;
        while i < ranges.len()
            invariant
                i <= ranges@.len(),
                copy@ == ranges@.take(i as int),
            decreases ranges@.len() - i,
        {
            copy.push(ranges[i]);
            proof {
                assert(copy@ =~= ranges@.take(i + 1 as int));
            }
            i = i + 1;
        }
        proof {
            assert(ranges@.take(ranges@.len() as int) =~= ranges@);
        }
        let it = RangeIter { ranges: copy, outer: 0, inner: None };
        proof {
            if it.ranges@.len() > 0 {
                assert(it.ranges@.skip(0) =~= it.ranges@);
            }
        }
        it
    }

    /// Produces the next index, or `None` once the sequence is exhausted:
    /// the head of `remaining` comes off.
    pub fn next(&mut self) -> (r: Option<usize>)
        requires
            old(self).wf(),
        ensures
            final(self).wf(),
            match r {
                None => old(self).remaining().len() == 0 && final(self).remaining() == old(
                    self,
                ).remaining(),
                Some(i) => old(self).remaining().len() > 0 && i == old(self).remaining()[0]
                    && final(self).remaining() == old(self).remaining().drop_first(),
            },
    {
        if self.outer >= self.ranges.len() {
            return None;
        }
        let r = self.ranges[self.outer];
        let v = match self.inner {
            None => r.start,
            Some(v) => v,
        };
        proof {
            let rest = self.ranges@.skip(self.outer as int);
            assert(rest[0] == r);
            assert(rest.drop_first() =~= self.ranges@.skip(self.outer + 1 as int));
            if self.inner is None {
                assert(old(self).remaining() == span_seq(r.start, r.end).add(
                    ranges_indices(self.ranges@.skip(self.outer + 1 as int)),
                ));
            }
        }
        if v == r.end {
            proof {
                assert(span_seq(v, r.end) == seq![v]);
                assert(old(self).remaining().drop_first() =~= ranges_indices(
                    self.ranges@.skip(self.outer + 1 as int),
                ));
            }
            self.outer = self.outer + 1;
            self.inner = None;
            proof {
                if self.outer < self.ranges@.len() {
                    assert(self.remaining() == ranges_indices(
                        self.ranges@.skip(self.outer as int),
                    ));
                }
            }
        } else if r.start <= r.end {
            proof {
                assert(span_seq(v, r.end) == seq![v].add(span_seq((v + 1) as usize, r.end)));
                assert(old(self).remaining().drop_first() =~= span_seq(
                    (v + 1) as usize,
                    r.end,
                ).add(ranges_indices(self.ranges@.skip(self.outer + 1 as int))));
            }
            self.inner = Some(v + 1);
        } else {
            proof {
                assert(span_seq(v, r.end) == seq![v].add(span_seq((v - 1) as usize, r.end)));
                assert(old(self).remaining().drop_first() =~= span_seq(
                    (v - 1) as usize,
                    r.end,
                ).add(ranges_indices(self.ranges@.skip(self.outer + 1 as int))));
            }
            self.inner = Some(v - 1);
        }
        Some(v)
    }
}

/// A fresh index cursor over `ranges`, as [`RangeIter::new`] builds it.
pub fn ranges_iter(ranges: &Vec<RangeSpec>) -> (it: RangeIter)
    ensures
        it.wf(),
        it.remaining() == ranges_indices(ranges@),
{
    RangeIter::new(ranges)
}

/// A valid single-number token `N` with value `N >= 1` parses to the
/// one-element range `(N-1, N-1)`.
pub proof fn lemma_single_number_token(t: Seq<char>)
    requires
        strip_plus(t).len() > 0,
        crate::numbers::all_digits(strip_plus(t)),
        1 <= digits_value(strip_plus(t)) <= usize::MAX,
    ensures
        token_outcome(t) == Ok::<RangeSpec, RangeErrKind>(
            RangeSpec {
                start: (digits_value(strip_plus(t)) - 1) as usize,
                end: (digits_value(strip_plus(t)) - 1) as usize,
            },
        ),
{
    lemma_number_token_value(t);
    assert(forall|i: int| 0 <= i < t.len() ==> t[i] != '-') by {
        lemma_number_token_dash_free(t);
    }
    text::lemma_split_chars_free(t, '-');
    let parts = text::split_chars(t, '-');
    assert(parts =~~= seq![t]);
    assert(parts.drop_first() =~~= Seq::<Seq<char>>::empty());
    assert(parts_values(Seq::<Seq<char>>::empty()) == Ok::<Seq<nat>, NumErr>(Seq::<nat>::empty()));
    assert(parts_values(parts) == Ok::<Seq<nat>, NumErr>(
        seq![digits_value(strip_plus(t))].add(Seq::<nat>::empty()),
    ));
}

/// A two-number token `A-B`, each side a valid number at least one, parses
/// to the range `(A-1, B-1)`: the order of `A` and `B` — ascending, equal,
/// or descending — is preserved, never rejected.
pub proof fn lemma_two_number_token(a: Seq<char>, b: Seq<char>)
    requires
        strip_plus(a).len() > 0,
        crate::numbers::all_digits(strip_plus(a)),
        1 <= digits_value(strip_plus(a)) <= usize::MAX,
        strip_plus(b).len() > 0,
        crate::numbers::all_digits(strip_plus(b)),
        1 <= digits_value(strip_plus(b)) <= usize::MAX,
    ensures
        token_outcome(a.add(seq!['-']).add(b)) == Ok::<RangeSpec, RangeErrKind>(
            RangeSpec {
                start: (digits_value(strip_plus(a)) - 1) as usize,
                end: (digits_value(strip_plus(b)) - 1) as usize,
            },
        ),
{
    let t = a.add(seq!['-']).add(b);
    lemma_number_token_value(a);
    lemma_number_token_value(b);
    assert(forall|i: int| 0 <= i < a.len() ==> a[i] != '-') by {
        lemma_number_token_dash_free(a);
    }
    assert(forall|i: int| 0 <= i < b.len() ==> b[i] != '-') by {
        lemma_number_token_dash_free(b);
    }
    text::lemma_split_chars_step(a, b, '-');
    text::lemma_split_chars_free(b, '-');
    let parts = text::split_chars(t, '-');
    assert(parts =~~= seq![a, b]);
    assert(parts.drop_first() =~~= seq![b]);
    assert(seq![b].drop_first() =~~= Seq::<Seq<char>>::empty());
    assert(parts_values(Seq::<Seq<char>>::empty()) == Ok::<Seq<nat>, NumErr>(Seq::<nat>::empty()));
    assert(parts_values(seq![b]) == Ok::<Seq<nat>, NumErr>(
        seq![digits_value(strip_plus(b))].add(Seq::<nat>::empty()),
    ));
    assert(parts_values(parts) == Ok::<Seq<nat>, NumErr>(
        seq![digits_value(strip_plus(a))].add(
            seq![digits_value(strip_plus(b))].add(Seq::<nat>::empty()),
        ),
    ));
}

/// A well-formed number's characters are digits after the optional sign, so
/// it never contains `-`.
proof fn lemma_number_token_dash_free(t: Seq<char>)
    requires
        crate::numbers::all_digits(strip_plus(t)),
    ensures
        forall|i: int| 0 <= i < t.len() ==> t[i] != '-',
{
    let b = strip_plus(t);
    assert forall|i: int| 0 <= i < t.len() implies t[i] != '-' by {
        if t.len() > 0 && t[0] == '+' {
            if i > 0 {
                assert(b[i - 1] == t[i]);
                assert(crate::numbers::is_digit_char(b[i - 1]));
            }
        } else {
            assert(b[i] == t[i]);
            assert(crate::numbers::is_digit_char(b[i]));
        }
    }
}

/// A well-formed number within bounds scans to its digit value.
proof fn lemma_number_token_value(t: Seq<char>)
    requires
        strip_plus(t).len() > 0,
        crate::numbers::all_digits(strip_plus(t)),
        1 <= digits_value(strip_plus(t)) <= usize::MAX,
    ensures
        number_outcome(t) == Ok::<nat, NumErr>(digits_value(strip_plus(t))),
{
    let b = strip_plus(t);
    crate::numbers::lemma_digit_prefix_len_is(b, b.len() as int);
    assert(b.take(b.len() as int) =~= b);
    assert(scan_outcome(b, usize::MAX as nat) == Ok::<nat, NumErr>(digits_value(b)));
}

} // verus!
