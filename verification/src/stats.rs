//! Line statistics for one piece of text: how many lines, whitespace-
//! separated words, characters and bytes it holds, counted as a line-by-line
//! reader would count them.

use crate::text::{self, decimal_chars, is_space_char};
use vstd::prelude::*;
use vstd::utf8::encode_utf8;

verus! {

/// The counts gathered from one piece of text.
#[derive(Debug, PartialEq, Eq, Structural)]
pub struct Stats {
    pub lines: usize,
    pub words: usize,
    pub bytes: usize,
    pub chars: usize,
}

/// How many `\n` characters `s` holds.
pub open spec fn newline_count(s: Seq<char>) -> nat
    decreases s.len(),
{
    if s.len() == 0 {
        0
    } else {
        newline_count(s.drop_last()) + if s.last() == '\n' {
            1nat
        } else {
            0nat
        }
    }
}

proof fn lemma_newline_count_le(s: Seq<char>)
    ensures
        newline_count(s) <= s.len(),
    decreases s.len(),
{
    if s.len() > 0 {
        lemma_newline_count_le(s.drop_last());
    }
}

/// How many lines a reader yields from `s`: one per newline, plus a final
/// unterminated line if the text ends without one.
pub open spec fn line_count(s: Seq<char>) -> nat {
    newline_count(s) + if s.len() > 0 && s.last() != '\n' {
        1nat
    } else {
        0nat
    }
}

/// Whether a word starts at position `i`: a non-space character at the
/// beginning or right after a space.
pub open spec fn is_word_start(s: Seq<char>, i: int) -> bool {
    !is_space_char(s[i]) && (i == 0 || is_space_char(s[i - 1]))
}

/// How many whitespace-separated words `s` holds.
pub open spec fn word_count(s: Seq<char>) -> nat
    decreases s.len(),
{
    if s.len() == 0 {
        0
    } else {
        word_count(s.drop_last()) + if is_word_start(s, s.len() - 1) {
            1nat
        } else {
            0nat
        }
    }
}

impl Stats {
    /// Adds another gathering of counts onto this one, field by field.
    pub fn add_assign(&mut self, other: &Stats)
        requires
            old(self).lines + other.lines <= usize::MAX,
            old(self).words + other.words <= usize::MAX,
            old(self).bytes + other.bytes <= usize::MAX,
            old(self).chars + other.chars <= usize::MAX,
        ensures
            final(self).lines == old(self).lines + other.lines,
            final(self).words == old(self).words + other.words,
            final(self).bytes == old(self).bytes + other.bytes,
            final(self).chars == old(self).chars + other.chars,
    {
        self.lines = self.lines + other.lines;
        self.words = self.words + other.words;
        self.chars = self.chars + other.chars;
        self.bytes = self.bytes + other.bytes;
    }
}

/// Counts the lines, words, characters and bytes of `text`, as a reader
/// consuming it line by line would count them.
pub fn process_stats(text: &str) -> (r: Stats)
    ensures
        r.lines == line_count(text@),
        r.words == word_count(text@),
        r.chars == text@.len(),
        r.bytes == encode_utf8(text@).len(),
{
    let n = text.unicode_len();
    let encoded = text.as_bytes_vec();
    let bytes = encoded.len();
    let mut lines: usize = 0;
    let mut words: usize = 0;
    let mut i: usize = 0;
    let mut prev_space: bool = true;
    while i < n
        invariant
            n == text@.len(),
            i <= n,
            lines == newline_count(text@.take(i as int)),
            words == word_count(text@.take(i as int)),
            lines <= i,
            words <= i,
            prev_space == (i == 0 || is_space_char(text@[i - 1])),
        decreases n - i,
    {
        let c = text.get_char(i);
        proof {
            let p = text@.take(i + 1 as int);
            assert(p.drop_last() =~= text@.take(i as int));
            assert(p.last() == text@[i as int]);
        }
        if c == '\n' {
            lines = lines + 1;
        }
        let space = text::is_space(c);
        if !space && prev_space {
            words = words + 1;
        }
        prev_space = space;
        i = i + 1;
    }
    proof {
        assert(text@.take(n as int) =~= text@);
    }
    if n > 0 && !(text.get_char(n - 1) == '\n') {
        proof {
            assert(text@.drop_last() =~= text@.take(n - 1 as int));
            lemma_newline_count_le(text@.drop_last());
        }
        lines = lines + 1;
    }
    Stats { lines, words, bytes, chars: n }
}

/// `value` right-aligned in eight columns when shown, or nothing at all.
pub open spec fn format_field_spec(value: nat, show: bool) -> Seq<char> {
    if show {
        pad_left(decimal_chars(value), 8)
    } else {
        Seq::<char>::empty()
    }
}

/// `s` padded on the left with spaces up to width `w`.
pub open spec fn pad_left(s: Seq<char>, w: int) -> Seq<char> {
    if s.len() >= w {
        s
    } else {
        space_run((w - s.len()) as nat).add(s)
    }
}

/// A run of `n` spaces.
pub open spec fn space_run(n: nat) -> Seq<char>
    decreases n,
{
    if n == 0 {
        Seq::<char>::empty()
    } else {
        space_run((n - 1) as nat).push(' ')
    }
}

/// Renders one statistics column: the value right-aligned in eight columns
/// when its flag is on, and the empty string otherwise.
pub fn format_field(value: usize, show: bool) -> (r: String)
    ensures
        r@ == format_field_spec(value as nat, show),
{
    if !show {
        return String::new();
    }
    let digits = text::decimal_of(value as u64);
    let mut out: Vec<char> = Vec::new();
    let mut pad: usize = if digits.len() >= 8 {
        0
    } else {
        8 - digits.len()
    };
    let ghost total_pad = pad as nat;
    while pad > 0
        invariant
            pad <= total_pad,
            out@ == space_run((total_pad - pad) as nat),
        decreases pad,
    {
        out.push(' ');
        pad = pad - 1;
    }
    let mut j: usize = 0;
    while j < digits.len()
        invariant
            j <= digits@.len(),
            digits@ == decimal_chars(value as nat),
            out@ == space_run(total_pad).add(digits@.take(j as int)),
        decreases digits@.len() - j,
    {
        proof {
            assert(space_run(total_pad).add(digits@.take(j + 1 as int)) =~= space_run(
                total_pad,
            ).add(digits@.take(j as int)).push(digits@[j as int]));
        }
        out.push(digits[j]);
        j = j + 1;
    }
    proof {
        assert(digits@.take(digits@.len() as int) =~= digits@);
        if digits@.len() < 8 {
            assert(pad_left(digits@, 8) == space_run(total_pad).add(digits@));
        } else {
            assert(space_run(0).add(digits@) =~= digits@);
        }
    }
    text::chars_to_string(&out)
}

} // verus!
