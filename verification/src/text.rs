//! Character-level utilities shared by the parsers and extractors:
//! splitting on a separator, trimming whitespace, joining pieces, rendering
//! decimal numbers, and building `String`s from verified character buffers.

use vstd::prelude::*;

verus! {

/// Builds the string whose characters are exactly `v`.
///
/// Relies on `String`'s `FromIterator<char>` implementation: collecting
/// characters yields the string of those characters in order.
#[verifier::external_body]
pub fn chars_to_string(v: &Vec<char>) -> (s: String)
    ensures
        s@ == v@,
{
    v.iter().collect()
}

/// The characters of a string slice as a vector, for verified indexing.
pub fn chars_of(s: &str) -> (v: Vec<char>)
    ensures
        v@ == s@,
{
    let n = s.unicode_len();
    let mut v: Vec<char> = Vec::new();
    let mut i: usize = 0;
    while i < n
        invariant
            n == s@.len(),
            i <= n,
            v@ == s@.take(i as int),
        decreases n - i,
    {
        let c = s.get_char(i);
        v.push(c);
        proof {
            assert(v@ =~= s@.take(i + 1 as int));
        }
        i = i + 1;
    }
    proof {
        assert(s@.take(n as int) =~= s@);
    }
    v
}

/// Whether `c` has the Unicode `White_Space` property, written out as the
/// fixed list of code points so that it can be used in specifications.
pub open spec fn is_space_char(c: char) -> bool {
    let u = c as u32;
    u == 0x9 || u == 0xA || u == 0xB || u == 0xC || u == 0xD || u == 0x20 || u == 0x85
        || u == 0xA0 || u == 0x1680 || (0x2000 <= u && u <= 0x200A) || u == 0x2028 || u == 0x2029
        || u == 0x202F || u == 0x205F || u == 0x3000
}

/// Executable check for [`is_space_char`].
pub fn is_space(c: char) -> (r: bool)
    ensures
        r == is_space_char(c),
{
    let u = c as u32;
    u == 0x9 || u == 0xA || u == 0xB || u == 0xC || u == 0xD || u == 0x20 || u == 0x85
        || u == 0xA0 || u == 0x1680 || (0x2000 <= u && u <= 0x200A) || u == 0x2028 || u == 0x2029
        || u == 0x202F || u == 0x205F || u == 0x3000
}

/// The pieces of `s` between occurrences of the separator `sep`, in order.
/// There is always at least one piece; separators at either end contribute
/// empty pieces, exactly as `str::split` behaves.
pub open spec fn split_chars(s: Seq<char>, sep: char) -> Seq<Seq<char>>
    decreases s.len(),
{
    if s.len() == 0 {
        seq![Seq::<char>::empty()]
    } else if s[0] == sep {
        seq![Seq::<char>::empty()].add(split_chars(s.drop_first(), sep))
    } else {
        let rest = split_chars(s.drop_first(), sep);
        seq![seq![s[0]].add(rest[0])].add(rest.drop_first())
    }
}

pub proof fn lemma_split_chars_len(s: Seq<char>, sep: char)
    ensures
        split_chars(s, sep).len() >= 1,
    decreases s.len(),
{
    if s.len() != 0 {
        lemma_split_chars_len(s.drop_first(), sep);
    }
}

/// Prepending a separator-free prefix `p` extends the first piece of the
/// split and leaves the remaining pieces alone.
pub proof fn lemma_split_chars_prepend(p: Seq<char>, s: Seq<char>, sep: char)
    requires
        forall|i: int| 0 <= i < p.len() ==> p[i] != sep,
    ensures
        split_chars(p.add(s), sep) == seq![p.add(split_chars(s, sep)[0])].add(
            split_chars(s, sep).drop_first(),
        ),
    decreases p.len(),
{
    lemma_split_chars_len(s, sep);
    let r = split_chars(s, sep);
    if p.len() == 0 {
        assert(p.add(s) =~= s);
        assert(p.add(r[0]) =~= r[0]);
        assert(seq![p.add(r[0])].add(r.drop_first()) =~~= r);
    } else {
        let t = p.add(s);
        assert(t.len() > 0 && t[0] == p[0] && t[0] != sep);
        assert(t.drop_first() =~= p.drop_first().add(s));
        lemma_split_chars_prepend(p.drop_first(), s, sep);
        let rest = split_chars(p.drop_first().add(s), sep);
        assert(split_chars(t, sep) == seq![seq![t[0]].add(rest[0])].add(rest.drop_first()));
        assert(rest[0] == p.drop_first().add(r[0]));
        assert(seq![t[0]].add(rest[0]) =~= p.add(r[0]));
        assert(rest.drop_first() =~~= r.drop_first());
        assert(split_chars(t, sep) =~~= seq![p.add(r[0])].add(r.drop_first()));
    }
}

/// A separator-free sequence splits into itself as the single piece.
pub proof fn lemma_split_chars_free(p: Seq<char>, sep: char)
    requires
        forall|i: int| 0 <= i < p.len() ==> p[i] != sep,
    ensures
        split_chars(p, sep) == seq![p],
{
    lemma_split_chars_prepend(p, Seq::<char>::empty(), sep);
    assert(p.add(Seq::<char>::empty()) =~= p);
    let r = split_chars(Seq::<char>::empty(), sep);
    assert(r =~~= seq![Seq::<char>::empty()]);
    assert(p.add(r[0]) =~= p);
    assert(seq![p.add(r[0])].add(r.drop_first()) =~~= seq![p]);
}

/// Splitting at the first separator: a separator-free prefix, the separator,
/// and the rest give the prefix as the first piece and the split of the rest.
pub proof fn lemma_split_chars_step(p: Seq<char>, s: Seq<char>, sep: char)
    requires
        forall|i: int| 0 <= i < p.len() ==> p[i] != sep,
    ensures
        split_chars(p.add(seq![sep]).add(s), sep) == seq![p].add(split_chars(s, sep)),
{
    let mid = seq![sep].add(s);
    assert(split_chars(mid, sep) =~~= seq![Seq::<char>::empty()].add(split_chars(s, sep))) by {
        assert(mid.len() > 0 && mid[0] == sep);
        assert(mid.drop_first() =~= s);
    }
    lemma_split_chars_prepend(p, mid, sep);
    assert(p.add(seq![sep]).add(s) =~= p.add(mid));
    let r = split_chars(mid, sep);
    assert(r[0] == Seq::<char>::empty());
    assert(p.add(r[0]) =~= p);
    lemma_split_chars_len(s, sep);
    assert(r.drop_first() =~~= split_chars(s, sep));
    assert(seq![p.add(r[0])].add(r.drop_first()) =~~= seq![p].add(split_chars(s, sep)));
}

/// Splits `v` on the separator `sep`, yielding the pieces of [`split_chars`].
pub fn split_on(v: &Vec<char>, sep: char) -> (parts: Vec<Vec<char>>)
    ensures
        parts@.map_values(|p: Vec<char>| p@) == split_chars(v@, sep),
{
    let ghost full = v@;
    let mut parts: Vec<Vec<char>> = Vec::new();
    let mut cur: Vec<char> = Vec::new();
    let mut i: usize = 0;
    proof {
        assert(cur@.add(full.skip(0)) =~= full);
        assert(parts@.map_values(|p: Vec<char>| p@).add(split_chars(full, sep)) =~~= split_chars(
            full,
            sep,
        ));
    }
    while i < v.len()
        invariant
            i <= v@.len(),
            full == v@,
            forall|j: int| 0 <= j < cur@.len() ==> cur@[j] != sep,
            split_chars(full, sep) == parts@.map_values(|p: Vec<char>| p@).add(
                split_chars(cur@.add(full.skip(i as int)), sep),
            ),
        decreases v@.len() - i,
    {
        let c = v[i];
        if c == sep {
            proof {
                let rest = full.skip(i as int);
                assert(rest.len() > 0 && rest[0] == sep);
                assert(cur@.add(rest) =~= cur@.add(seq![sep]).add(full.skip(i + 1 as int)));
                lemma_split_chars_step(cur@, full.skip(i + 1 as int), sep);
                lemma_split_chars_len(full.skip(i + 1 as int), sep);
                assert(parts@.map_values(|p: Vec<char>| p@).add(
                    seq![cur@].add(split_chars(full.skip(i + 1 as int), sep)),
                ) =~~= parts@.push(cur).map_values(|p: Vec<char>| p@).add(
                    split_chars(full.skip(i + 1 as int), sep),
                ));
            }
            parts.push(cur);
            cur = Vec::new();
            proof {
                assert(cur@.add(full.skip(i + 1 as int)) =~= full.skip(i + 1 as int));
            }
        } else {
            proof {
                let rest = full.skip(i as int);
                assert(rest.len() > 0 && rest[0] == c);
                assert(cur@.push(c).add(full.skip(i + 1 as int)) =~= cur@.add(rest));
            }
            cur.push(c);
        }
        i = i + 1;
    }
    proof {
        assert(cur@.add(full.skip(i as int)) =~= cur@);
        lemma_split_chars_free(cur@, sep);
        assert(parts@.map_values(|p: Vec<char>| p@).add(seq![cur@]) =~~= parts@.push(
            cur,
        ).map_values(|p: Vec<char>| p@));
    }
    parts.push(cur);
    parts
}

/// Whether `pre` is a prefix of `hay`.
pub fn has_prefix(hay: &Vec<char>, pre: &Vec<char>) -> (r: bool)
    ensures
        r == (hay@.len() >= pre@.len() && hay@.take(pre@.len() as int) == pre@),
{
    if hay.len() < pre.len() {
        return false;
    }
    let mut i: usize = 0;
    while i < pre.len()
        invariant
            pre@.len() <= hay@.len(),
            i <= pre@.len(),
            forall|j: int| 0 <= j < i ==> hay@[j] == pre@[j],
        decreases pre@.len() - i,
    {
        if !(hay[i] == pre[i]) {
            proof {
                assert(hay@.take(pre@.len() as int)[i as int] != pre@[i as int]);
            }
            return false;
        }
        i = i + 1;
    }
    proof {
        assert(hay@.take(pre@.len() as int) =~= pre@);
    }
    true
}

/// `s` without its leading whitespace.
pub open spec fn trim_start_spec(s: Seq<char>) -> Seq<char>
    decreases s.len(),
{
    if s.len() > 0 && is_space_char(s[0]) {
        trim_start_spec(s.drop_first())
    } else {
        s
    }
}

/// `s` without its trailing whitespace.
pub open spec fn trim_end_spec(s: Seq<char>) -> Seq<char>
    decreases s.len(),
{
    if s.len() > 0 && is_space_char(s.last()) {
        trim_end_spec(s.drop_last())
    } else {
        s
    }
}

/// `s` without leading and trailing whitespace, as `str::trim` yields it.
pub open spec fn trim_spec(s: Seq<char>) -> Seq<char> {
    trim_end_spec(trim_start_spec(s))
}

/// Trims leading and trailing whitespace from `v`.
pub fn trim_chars(v: &Vec<char>) -> (r: Vec<char>)
    ensures
        r@ == trim_spec(v@),
{
    let n = v.len();
    let mut a: usize = 0;
    proof {
        assert(v@.skip(0) =~= v@);
    }
    while a < n && is_space(v[a])
        invariant
            n == v@.len(),
            a <= n,
            trim_start_spec(v@) == trim_start_spec(v@.skip(a as int)),
        decreases n - a,
    {
        proof {
            let rest = v@.skip(a as int);
            assert(rest.len() > 0 && is_space_char(rest[0]));
            assert(rest.drop_first() =~= v@.skip(a + 1 as int));
        }
        a = a + 1;
    }
    proof {
        let rest = v@.skip(a as int);
        if a < n {
            assert(rest.len() > 0 && !is_space_char(rest[0]));
        }
        assert(trim_start_spec(v@) == rest);
    }
    let ghost t = v@.skip(a as int);
    let mut b: usize = n - a;
    proof {
        assert(t.take((n - a) as int) =~= t);
    }
    while b > 0 && is_space(v[a + b - 1])
        invariant
            n == v@.len(),
            a + b <= n,
            t == v@.skip(a as int),
            trim_end_spec(t) == trim_end_spec(t.take(b as int)),
        decreases b,
    {
        proof {
            let piece = t.take(b as int);
            assert(piece.len() > 0);
            assert(piece.last() == v@[a + b - 1]);
            assert(piece.drop_last() =~= t.take(b - 1 as int));
        }
        b = b - 1;
    }
    proof {
        let piece = t.take(b as int);
        if b > 0 {
            assert(piece.last() == v@[a + b - 1]);
        }
        assert(trim_end_spec(t.take(b as int)) == t.take(b as int));
    }
    let mut r: Vec<char> = Vec::new();
    let mut i: usize = 0;
    while i < b
        invariant
            a + b <= n,
            n == v@.len(),
            i <= b,
            t == v@.skip(a as int),
            r@ == t.take(b as int).take(i as int),
        decreases b - i,
    {
        r.push(v[a + i]);
        proof {
            assert(r@ =~= t.take(b as int).take(i + 1 as int));
        }
        i = i + 1;
    }
    proof {
        assert(t.take(b as int).take(b as int) =~= t.take(b as int));
    }
    r
}

/// The pieces joined with a single separator between them.
pub open spec fn join_with(parts: Seq<Seq<char>>, sep: char) -> Seq<char>
    decreases parts.len(),
{
    if parts.len() == 0 {
        Seq::<char>::empty()
    } else if parts.len() == 1 {
        parts[0]
    } else {
        join_with(parts.drop_last(), sep).push(sep).add(parts.last())
    }
}

/// Joins string pieces with the separator `sep`, as `[_]::join` does.
pub fn join_strings(parts: &Vec<String>, sep: char) -> (r: Vec<char>)
    ensures
        r@ == join_with(parts@.map_values(|p: String| p@), sep),
{
    let ghost views = parts@.map_values(|p: String| p@);
    let mut r: Vec<char> = Vec::new();
    let mut i: usize = 0;
    while i < parts.len()
        invariant
            i <= parts@.len(),
            views == parts@.map_values(|p: String| p@),
            r@ == join_with(views.take(i as int), sep),
        decreases parts@.len() - i,
    {
        if i > 0 {
            r.push(sep);
        }
        let piece = chars_of(parts[i].as_str());
        let mut j: usize = 0;
        while j < piece.len()
            invariant
                j <= piece@.len(),
                i < parts@.len(),
                views == parts@.map_values(|p: String| p@),
                piece@ == views[i as int],
                r@ == if i == 0 {
                    piece@.take(j as int)
                } else {
                    join_with(views.take(i as int), sep).push(sep).add(piece@.take(j as int))
                },
            decreases piece@.len() - j,
        {
            proof {
                assert(piece@.take(j + 1 as int) =~= piece@.take(j as int).push(piece@[j as int]));
                if i > 0 {
                    assert(join_with(views.take(i as int), sep).push(sep).add(
                        piece@.take(j as int),
                    ).push(piece@[j as int]) =~= join_with(views.take(i as int), sep).push(
                        sep,
                    ).add(piece@.take(j + 1 as int)));
                }
            }
            r.push(piece[j]);
            j = j + 1;
        }
        proof {
            assert(piece@.take(piece@.len() as int) =~= piece@);
            let w = views.take(i + 1 as int);
            assert(w.drop_last() =~= views.take(i as int));
            assert(w.last() == views[i as int]);
            if i == 0 {
                assert(join_with(w, sep) == views[0]);
            }
        }
        i = i + 1;
    }
    proof {
        assert(views.take(views.len() as int) =~= views);
    }
    r
}

/// The decimal digits of `n`, most significant first, without leading zeros
/// (the single digit `0` for zero itself).
pub open spec fn decimal_chars(n: nat) -> Seq<char>
    decreases n,
{
    if n < 10 {
        seq![digit_char(n)]
    } else {
        decimal_chars(n / 10).push(digit_char(n % 10))
    }
}

/// The character for a single decimal digit value.
pub open spec fn digit_char(d: nat) -> char {
    if d == 0 {
        '0'
    } else if d == 1 {
        '1'
    } else if d == 2 {
        '2'
    } else if d == 3 {
        '3'
    } else if d == 4 {
        '4'
    } else if d == 5 {
        '5'
    } else if d == 6 {
        '6'
    } else if d == 7 {
        '7'
    } else if d == 8 {
        '8'
    } else {
        '9'
    }
}

fn digit_char_of(d: u64) -> (c: char)
    requires
        d < 10,
    ensures
        c == digit_char(d as nat),
{
    match d {
        0 => '0',
        1 => '1',
        2 => '2',
        3 => '3',
        4 => '4',
        5 => '5',
        6 => '6',
        7 => '7',
        8 => '8',
        _ => '9',
    }
}

/// Renders `n` in decimal.
pub fn decimal_of(n: u64) -> (r: Vec<char>)
    ensures
        r@ == decimal_chars(n as nat),
{
    let mut rev: Vec<char> = Vec::new();
    let mut m: u64 = n;
    loop
        invariant_except_break
            decimal_chars(n as nat) == decimal_chars(m as nat).add(rev@.reverse()),
        ensures
            decimal_chars(n as nat) == rev@.reverse(),
        decreases m,
    {
        let d = m % 10;
        let next = m / 10;
        proof {
            assert(rev@.push(digit_char(d as nat)).reverse() =~= seq![digit_char(d as nat)].add(
                rev@.reverse(),
            ));
            if next > 0 {
                assert(decimal_chars(m as nat) == decimal_chars(next as nat).push(
                    digit_char(d as nat),
                ));
                assert(decimal_chars(next as nat).add(
                    seq![digit_char(d as nat)].add(rev@.reverse()),
                ) =~= decimal_chars(m as nat).add(rev@.reverse()));
            } else {
                assert(decimal_chars(m as nat) == seq![digit_char(d as nat)]);
                assert(seq![digit_char(d as nat)].add(rev@.reverse()) =~= decimal_chars(
                    m as nat,
                ).add(rev@.reverse()));
            }
        }
        rev.push(digit_char_of(d));
        if next == 0 {
            break;
        }
        m = next;
    }
    let mut r: Vec<char> = Vec::new();
    let mut i: usize = rev.len();
    while i > 0
        invariant
            i <= rev@.len(),
            r@ == rev@.reverse().take((rev@.len() - i) as int),
        decreases i,
    {
        i = i - 1;
        r.push(rev[i]);
        proof {
            assert(r@ =~= rev@.reverse().take((rev@.len() - i) as int));
        }
    }
    proof {
        assert(rev@.reverse().take(rev@.len() as int) =~= rev@.reverse());
    }
    r
}

/// The decimal rendering of a signed value: a minus sign and the magnitude
/// for negative values, the plain digits otherwise.
pub open spec fn signed_decimal_chars(v: int) -> Seq<char> {
    if v < 0 {
        seq!['-'].add(decimal_chars((-v) as nat))
    } else {
        decimal_chars(v as nat)
    }
}

/// Renders `v` in decimal, with a minus sign when negative.
pub fn signed_decimal_of(v: i64) -> (r: Vec<char>)
    ensures
        r@ == signed_decimal_chars(v as int),
{
    if v >= 0 {
        decimal_of(v as u64)
    } else {
        let magnitude: u64 = ((-(v + 1)) as u64) + 1;
        proof {
            assert(magnitude as int == -(v as int));
        }
        let digits = decimal_of(magnitude);
        let mut out: Vec<char> = Vec::new();
        out.push('-');
        let mut i: usize = 0;
        while i < digits.len()
            invariant
                i <= digits@.len(),
                out@ == seq!['-'].add(digits@.take(i as int)),
            decreases digits@.len() - i,
        {
            proof {
                assert(seq!['-'].add(digits@.take(i + 1 as int)) =~= seq!['-'].add(
                    digits@.take(i as int),
                ).push(digits@[i as int]));
            }
            out.push(digits[i]);
            i = i + 1;
        }
        proof {
            assert(digits@.take(digits@.len() as int) =~= digits@);
        }
        out
    }
}

} // verus!
