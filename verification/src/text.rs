//! Plain-text helpers: characters, lines, trimming, splitting, numbers.
//!
//! Text is handled as a vector of characters; a piece of it is a range
//! `[start, end)` of indices into that vector.

use vstd::prelude::*;

verus! {

broadcast use vstd::string::group_string_axioms;

// ---------------------------------------------------------------------------
// The model
// ---------------------------------------------------------------------------

/// The characters with the Unicode `White_Space` property, those that
/// `char::is_whitespace` accepts and `str::trim` removes.
pub open spec fn is_space(c: char) -> bool {
    ||| '\t' <= c <= '\r'
    ||| c == ' '
    ||| c == '\u{85}'
    ||| c == '\u{A0}'
    ||| c == '\u{1680}'
    ||| '\u{2000}' <= c <= '\u{200A}'
    ||| c == '\u{2028}'
    ||| c == '\u{2029}'
    ||| c == '\u{202F}'
    ||| c == '\u{205F}'
    ||| c == '\u{3000}'
}

/// `s` without its leading white space.
pub open spec fn trim_start(s: Seq<char>) -> Seq<char>
    decreases s.len(),
{
    if s.len() > 0 && is_space(s[0]) {
        trim_start(s.drop_first())
    } else {
        s
    }
}

/// `s` without its trailing white space.
pub open spec fn trim_end(s: Seq<char>) -> Seq<char>
    decreases s.len(),
{
    if s.len() > 0 && is_space(s.last()) {
        trim_end(s.drop_last())
    } else {
        s
    }
}

/// `s` without leading and trailing white space, as `str::trim` gives it.
pub open spec fn trim(s: Seq<char>) -> Seq<char> {
    trim_end(trim_start(s))
}

/// The pieces of `s` between occurrences of `sep`, as `str::split` gives
/// them: one more piece than there are separators, empty pieces included.
pub open spec fn split(s: Seq<char>, sep: char) -> Seq<Seq<char>>
    decreases s.len(),
{
    if s.len() == 0 {
        seq![Seq::empty()]
    } else {
        let p = split(s.drop_last(), sep);
        if s.last() == sep {
            p.push(Seq::empty())
        } else {
            p.update(p.len() - 1, p.last().push(s.last()))
        }
    }
}

/// `p` without one trailing carriage return.
pub open spec fn strip_cr(p: Seq<char>) -> Seq<char> {
    if p.len() > 0 && p.last() == '\r' {
        p.drop_last()
    } else {
        p
    }
}

/// The lines of `s`, as `str::lines` gives them: the pieces between
/// newlines, each piece that a newline ends without one carriage return
/// before it, and without the empty piece that follows a final newline.
pub open spec fn lines(s: Seq<char>) -> Seq<Seq<char>> {
    let p = split(s, '\n');
    let ended = Seq::new((p.len() - 1) as nat, |i: int| strip_cr(p[i]));
    if p.last().len() == 0 {
        ended
    } else {
        ended.push(p.last())
    }
}

/// The value of an ASCII digit.
pub open spec fn digit_value(c: char) -> nat {
    (c as u32 - '0' as u32) as nat
}

/// `s` is made of ASCII digits only.
pub open spec fn all_digits(s: Seq<char>) -> bool {
    forall|i: int| 0 <= i < s.len() ==> '0' <= #[trigger] s[i] <= '9'
}

/// The number that a string of digits writes in decimal.
pub open spec fn digits_value(s: Seq<char>) -> nat
    decreases s.len(),
{
    if s.len() == 0 {
        0
    } else {
        digits_value(s.drop_last()) * 10 + digit_value(s.last())
    }
}

/// What `str::parse::<u32>` gives: an optional `+`, then one digit or more,
/// whose value fits in a `u32`.
pub open spec fn parse_u32(s: Seq<char>) -> Option<u32> {
    let d = if s.len() > 0 && s[0] == '+' { s.drop_first() } else { s };
    if d.len() > 0 && all_digits(d) && digits_value(d) <= u32::MAX {
        Some(digits_value(d) as u32)
    } else {
        None
    }
}

/// `parse_u32`, with 0 in place of a failure.
pub open spec fn parse_u32_or_zero(s: Seq<char>) -> u32 {
    match parse_u32(s) {
        Some(v) => v,
        None => 0,
    }
}

/// `c` lowercases to the lowercase ASCII letter or digit `l`.
pub open spec fn lowers_to(c: char, l: char) -> bool {
    c == l || ('a' <= l <= 'z' && c as u32 == l as u32 - 32)
}

/// `s` lowercases to the lowercase ASCII word `w`.
///
/// For a word of lowercase ASCII letters that holds no `k`, this is what
/// `s.to_lowercase() == w` decides: no other character lowercases to such a
/// letter alone.
pub open spec fn lowers_to_word(s: Seq<char>, w: Seq<char>) -> bool {
    s.len() == w.len() && forall|i: int| 0 <= i < s.len() ==> lowers_to(#[trigger] s[i], w[i])
}

// ---------------------------------------------------------------------------
// Lemmas
// ---------------------------------------------------------------------------

/// `split` always yields one piece at least.
pub proof fn lemma_split_nonempty(s: Seq<char>, sep: char)
    ensures
        split(s, sep).len() >= 1,
    decreases s.len(),
{
    if s.len() > 0 {
        lemma_split_nonempty(s.drop_last(), sep);
    }
}

/// The value of a string of digits bounds that of each of its prefixes.
proof fn lemma_digits_value_grows(s: Seq<char>, k: int)
    requires
        0 <= k <= s.len(),
    ensures
        digits_value(s.take(k)) <= digits_value(s),
    decreases s.len() - k,
{
    if k < s.len() {
        lemma_digits_value_grows(s, k + 1);
        assert(s.take(k + 1).drop_last() =~= s.take(k));
    } else {
        assert(s.take(k) =~= s);
    }
}

/// Pieces joined back with `sep` between each two.
pub open spec fn join(ps: Seq<Seq<char>>, sep: char) -> Seq<char>
    decreases ps.len(),
{
    if ps.len() == 0 {
        Seq::empty()
    } else if ps.len() == 1 {
        ps[0]
    } else {
        join(ps.drop_last(), sep) + seq![sep] + ps.last()
    }
}

/// `s` holds no `sep`.
pub open spec fn free_of(s: Seq<char>, sep: char) -> bool {
    forall|i: int| 0 <= i < s.len() ==> #[trigger] s[i] != sep
}

/// Splitting loses nothing and cuts at every separator: the pieces hold no
/// separator, and joined back with it they give the text again.
pub proof fn law_split_rejoins(s: Seq<char>, sep: char)
    ensures
        split(s, sep).len() >= 1,
        join(split(s, sep), sep) == s,
        forall|k: int| 0 <= k < split(s, sep).len() ==> free_of(#[trigger] split(s, sep)[k], sep),
    decreases s.len(),
{
    if s.len() == 0 {
        assert(join(split(s, sep), sep) =~= s);
    } else {
        let s0 = s.drop_last();
        let c = s.last();
        law_split_rejoins(s0, sep);
        let p = split(s0, sep);
        let n = p.len();
        if c == sep {
            let q = p.push(Seq::<char>::empty());
            assert(q.drop_last() =~= p);
            assert(join(q, sep) =~= s);
            assert forall|k: int| 0 <= k < q.len() implies free_of(#[trigger] q[k], sep) by {
                if k < n {
                    assert(q[k] == p[k]);
                }
            }
        } else {
            let q = p.update(n - 1, p.last().push(c));
            if n == 1 {
                assert(join(q, sep) =~= s);
            } else {
                assert(q.drop_last() =~= p.drop_last());
                assert(join(q, sep) =~= join(p, sep).push(c));
                assert(s0.push(c) =~= s);
            }
            assert forall|k: int| 0 <= k < q.len() implies free_of(#[trigger] q[k], sep) by {
                if k < n - 1 {
                    assert(q[k] == p[k]);
                } else {
                    assert(free_of(p[k], sep));
                    assert forall|i: int| 0 <= i < q[k].len() implies #[trigger] q[k][i] != sep by {
                        if i < p[k].len() {
                            assert(q[k][i] == p[k][i]);
                        }
                    }
                }
            }
        }
    }
}

/// Pieces free of the separator, joined with it, split back into the same
/// pieces.
pub proof fn lemma_split_join(ps: Seq<Seq<char>>, sep: char)
    requires
        ps.len() >= 1,
        forall|k: int| 0 <= k < ps.len() ==> free_of(#[trigger] ps[k], sep),
    ensures
        split(join(ps, sep), sep) == ps,
    decreases ps.len(),
{
    if ps.len() == 1 {
        lemma_split_free(ps[0], sep);
        assert(seq![ps[0]] =~= ps);
    } else {
        let ps0 = ps.drop_last();
        lemma_split_join(ps0, sep);
        lemma_split_concat(join(ps0, sep), ps.last(), sep);
        lemma_split_free(ps.last(), sep);
        assert(ps0 + seq![ps.last()] =~= ps);
    }
}

/// Three pieces free of the separator, written with it between them, split
/// back into the three.
pub proof fn lemma_split_three(a: Seq<char>, b: Seq<char>, c: Seq<char>, sep: char)
    requires
        free_of(a, sep),
        free_of(b, sep),
        free_of(c, sep),
    ensures
        split(a + seq![sep] + b + seq![sep] + c, sep) == seq![a, b, c],
{
    let ps = seq![a, b, c];
    assert forall|k: int| 0 <= k < 3 implies free_of(#[trigger] ps[k], sep) by {}
    assert(seq![a, b].drop_last() =~= seq![a]);
    assert(ps.drop_last() =~= seq![a, b]);
    assert(join(seq![a], sep) == a);
    assert(join(seq![a, b], sep) =~= a + seq![sep] + b);
    assert(join(ps, sep) =~= a + seq![sep] + b + seq![sep] + c);
    lemma_split_join(ps, sep);
}

/// Four pieces free of the separator, written with it between them, split
/// back into the four.
pub proof fn lemma_split_four(a: Seq<char>, b: Seq<char>, c: Seq<char>, d: Seq<char>, sep: char)
    requires
        free_of(a, sep),
        free_of(b, sep),
        free_of(c, sep),
        free_of(d, sep),
    ensures
        split(a + seq![sep] + b + seq![sep] + c + seq![sep] + d, sep) == seq![a, b, c, d],
{
    let ps = seq![a, b, c, d];
    assert forall|k: int| 0 <= k < 4 implies free_of(#[trigger] ps[k], sep) by {}
    assert(seq![a, b].drop_last() =~= seq![a]);
    assert(seq![a, b, c].drop_last() =~= seq![a, b]);
    assert(ps.drop_last() =~= seq![a, b, c]);
    assert(join(seq![a], sep) == a);
    assert(join(seq![a, b], sep) =~= a + seq![sep] + b);
    assert(join(seq![a, b, c], sep) =~= a + seq![sep] + b + seq![sep] + c);
    assert(join(ps, sep) =~= a + seq![sep] + b + seq![sep] + c + seq![sep] + d);
    lemma_split_join(ps, sep);
}

/// The lines of a text written line by line are those lines: each line
/// followed by a newline, or by a carriage return and a newline, as long as
/// no line holds a newline or ends with a carriage return. A last line with
/// no newline after it counts too, when it is not empty.
pub proof fn law_lines_of_written_text(ps: Seq<Seq<char>>)
    requires
        ps.len() >= 1,
        forall|k: int|
            0 <= k < ps.len() ==> free_of(#[trigger] ps[k], '\n') && (ps[k].len() > 0
                ==> ps[k].last() != '\r'),
    ensures
        lines(join(ps, '\n') + seq!['\n']) == ps,
        ps.last().len() > 0 ==> lines(join(ps, '\n')) == ps,
        lines(join(ps.map_values(|p: Seq<char>| p.push('\r')), '\n') + seq!['\n']) == ps,
{
    let e = Seq::<char>::empty();
    // with a final newline
    let q = ps.push(e);
    assert(q.drop_last() =~= ps);
    assert(join(q, '\n') =~= join(ps, '\n') + seq!['\n']);
    assert forall|k: int| 0 <= k < q.len() implies free_of(#[trigger] q[k], '\n') by {
        if k < ps.len() {
            assert(q[k] == ps[k]);
        }
    }
    lemma_split_join(q, '\n');
    assert(lines(join(ps, '\n') + seq!['\n']) =~= ps);
    // without one
    if ps.last().len() > 0 {
        lemma_split_join(ps, '\n');
        assert(lines(join(ps, '\n')) =~= ps);
    }
    // with carriage returns
    let cr = ps.map_values(|p: Seq<char>| p.push('\r'));
    let qc = cr.push(e);
    assert(qc.drop_last() =~= cr);
    assert(join(qc, '\n') =~= join(cr, '\n') + seq!['\n']);
    assert forall|k: int| 0 <= k < qc.len() implies free_of(#[trigger] qc[k], '\n') by {
        if k < cr.len() {
            assert(qc[k] == ps[k].push('\r'));
            assert forall|i: int| 0 <= i < qc[k].len() implies #[trigger] qc[k][i] != '\n' by {
                if i < ps[k].len() {
                    assert(qc[k][i] == ps[k][i]);
                }
            }
        }
    }
    lemma_split_join(qc, '\n');
    assert forall|k: int| 0 <= k < ps.len() implies strip_cr(#[trigger] qc[k]) == ps[k] by {
        assert(qc[k] == ps[k].push('\r'));
        assert(ps[k].push('\r').drop_last() =~= ps[k]);
    }
    assert(lines(join(cr, '\n') + seq!['\n']) =~= ps);
}

/// A text with no separator is one piece.
pub proof fn lemma_split_free(s: Seq<char>, sep: char)
    requires
        free_of(s, sep),
    ensures
        split(s, sep) == seq![s],
    decreases s.len(),
{
    if s.len() > 0 {
        let s0 = s.drop_last();
        lemma_split_free(s0, sep);
        assert(s0.push(s.last()) =~= s);
        assert(split(s, sep) =~= seq![s]);
    } else {
        assert(s =~= Seq::<char>::empty());
        assert(split(s, sep) =~= seq![s]);
    }
}

/// The pieces of `a`, a separator, `b` are the pieces of `a` followed by
/// those of `b`.
pub proof fn lemma_split_concat(a: Seq<char>, b: Seq<char>, sep: char)
    ensures
        split(a + seq![sep] + b, sep) == split(a, sep) + split(b, sep),
    decreases b.len(),
{
    lemma_split_nonempty(a, sep);
    if b.len() == 0 {
        assert((a + seq![sep] + b).drop_last() =~= a);
        assert(split(b, sep) =~= seq![Seq::<char>::empty()]);
        assert(split(a + seq![sep] + b, sep) =~= split(a, sep) + split(b, sep));
    } else {
        let b0 = b.drop_last();
        let c = b.last();
        lemma_split_concat(a, b0, sep);
        lemma_split_nonempty(b0, sep);
        let whole = a + seq![sep] + b;
        assert(whole.drop_last() =~= a + seq![sep] + b0);
        assert(whole.last() == c);
        let pa = split(a, sep);
        let pb = split(b0, sep);
        if c == sep {
            assert(split(whole, sep) =~= split(a, sep) + split(b, sep));
        } else {
            assert((pa + pb).last() == pb.last());
            assert(split(whole, sep) =~= split(a, sep) + split(b, sep));
        }
    }
}

/// Trimming removes exactly the white space at both ends: the result is a
/// piece `s[i..j]` of `s` with only white space before `i` and from `j` on,
/// and, unless empty, neither begins nor ends with white space.
pub proof fn law_trim_strips_ends(s: Seq<char>)
    ensures
        exists|i: int, j: int|
            0 <= i <= j <= s.len() && trim(s) == s.subrange(i, j) && (forall|k: int|
                0 <= k < i ==> is_space(#[trigger] s[k])) && (forall|k: int|
                j <= k < s.len() ==> is_space(#[trigger] s[k])) && (i < j ==> !is_space(s[i])
                && !is_space(s[j - 1])),
{
    let i = lemma_trim_start(s);
    let t = s.skip(i);
    let m = lemma_trim_end(t);
    let j = i + m;
    assert(trim(s) =~= s.subrange(i, j));
    assert forall|k: int| j <= k < s.len() implies is_space(#[trigger] s[k]) by {
        assert(s[k] == t[k - i]);
    }
    if i < j {
        assert(s[j - 1] == t[m - 1]);
        assert(s[i] == t[0]);
    }
}

/// Where `trim_start` begins.
proof fn lemma_trim_start(s: Seq<char>) -> (i: int)
    ensures
        0 <= i <= s.len(),
        trim_start(s) == s.skip(i),
        forall|k: int| 0 <= k < i ==> is_space(#[trigger] s[k]),
        i < s.len() ==> !is_space(s[i]),
    decreases s.len(),
{
    if s.len() > 0 && is_space(s[0]) {
        let t = s.drop_first();
        let i0 = lemma_trim_start(t);
        assert(t.skip(i0) =~= s.skip(i0 + 1));
        assert forall|k: int| 0 <= k < i0 + 1 implies is_space(#[trigger] s[k]) by {
            if k > 0 {
                assert(s[k] == t[k - 1]);
            }
        }
        i0 + 1
    } else {
        assert(s.skip(0) =~= s);
        0
    }
}

/// Where `trim_end` ends.
proof fn lemma_trim_end(s: Seq<char>) -> (j: int)
    ensures
        0 <= j <= s.len(),
        trim_end(s) == s.take(j),
        forall|k: int| j <= k < s.len() ==> is_space(#[trigger] s[k]),
        j > 0 ==> !is_space(s[j - 1]),
    decreases s.len(),
{
    if s.len() > 0 && is_space(s.last()) {
        let t = s.drop_last();
        let j0 = lemma_trim_end(t);
        assert(t.take(j0) =~= s.take(j0));
        assert forall|k: int| j0 <= k < s.len() implies is_space(#[trigger] s[k]) by {
            if k < s.len() - 1 {
                assert(s[k] == t[k]);
            }
        }
        j0
    } else {
        assert(s.take(s.len() as int) =~= s);
        s.len() as int
    }
}

/// A text with no white space at either end is its own trim.
pub proof fn lemma_trim_unchanged(s: Seq<char>)
    requires
        s.len() > 0 ==> !is_space(s[0]) && !is_space(s.last()),
    ensures
        trim(s) == s,
{
}

// ---------------------------------------------------------------------------
// Operations
// ---------------------------------------------------------------------------

/// The characters of `s`.
pub fn chars_of(s: &str) -> (v: Vec<char>)
    ensures
        v@ == s@,
{
    let mut v: Vec<char> = Vec::new();
    for c in it: s.chars()
        invariant
            v@ == it.seq().take(it.index()),
    {
        v.push(c);
    }
    v
}

/// Whether `c` is white space, as `char::is_whitespace` decides.
pub fn char_is_space(c: char) -> (b: bool)
    ensures
        b == is_space(c),
{
    ('\t' <= c && c <= '\r') || c == ' ' || c == '\u{85}' || c == '\u{A0}' || c == '\u{1680}'
        || ('\u{2000}' <= c && c <= '\u{200A}') || c == '\u{2028}' || c == '\u{2029}' || c
        == '\u{202F}' || c == '\u{205F}' || c == '\u{3000}'
}

/// The range of `cs[start..end]` that remains once white space is trimmed
/// from both ends.
pub fn trim_range(cs: &Vec<char>, start: usize, end: usize) -> (r: (usize, usize))
    requires
        start <= end <= cs@.len(),
    ensures
        start <= r.0 <= r.1 <= end,
        cs@.subrange(r.0 as int, r.1 as int) == trim(cs@.subrange(start as int, end as int)),
{
    let mut a = start;
    while a < end && char_is_space(cs[a])
        invariant
            start <= a <= end <= cs@.len(),
            trim_start(cs@.subrange(start as int, end as int)) == trim_start(
                cs@.subrange(a as int, end as int),
            ),
        decreases end - a,
    {
        assert(cs@.subrange(a as int, end as int).drop_first() =~= cs@.subrange(
            a + 1,
            end as int,
        ));
        a = a + 1;
    }
    let mut b = end;
    while b > a && char_is_space(cs[b - 1])
        invariant
            start <= a <= b <= end <= cs@.len(),
            trim(cs@.subrange(start as int, end as int)) == trim_end(
                cs@.subrange(a as int, b as int),
            ),
        decreases b - a,
    {
        assert(cs@.subrange(a as int, b as int).drop_last() =~= cs@.subrange(
            a as int,
            b - 1,
        ));
        b = b - 1;
    }
    (a, b)
}

/// The ranges of the pieces of `cs[start..end]` between occurrences of `sep`.
pub fn split_range(cs: &Vec<char>, start: usize, end: usize, sep: char) -> (parts: Vec<
    (usize, usize),
>)
    requires
        start <= end <= cs@.len(),
    ensures
        parts@.len() == split(cs@.subrange(start as int, end as int), sep).len(),
        forall|k: int|
            0 <= k < parts@.len() ==> {
                &&& start <= (#[trigger] parts@[k]).0 <= parts@[k].1 <= end
                &&& cs@.subrange(parts@[k].0 as int, parts@[k].1 as int) == split(
                    cs@.subrange(start as int, end as int),
                    sep,
                )[k]
            },
{
    let mut parts: Vec<(usize, usize)> = Vec::new();
    parts.push((start, start));
    let mut i = start;
    proof {
        assert(cs@.subrange(start as int, start as int) =~= Seq::<char>::empty());
    }
    while i < end
        invariant
            start <= i <= end <= cs@.len(),
            parts@.len() == split(cs@.subrange(start as int, i as int), sep).len(),
            parts@.len() >= 1,
            parts@.last().1 == i,
            forall|k: int|
                0 <= k < parts@.len() ==> {
                    &&& start <= (#[trigger] parts@[k]).0 <= parts@[k].1 <= i
                    &&& cs@.subrange(parts@[k].0 as int, parts@[k].1 as int) == split(
                        cs@.subrange(start as int, i as int),
                        sep,
                    )[k]
                },
        decreases end - i,
    {
        let ghost prev = parts@;
        let ghost pre = cs@.subrange(start as int, i as int);
        let ghost next = cs@.subrange(start as int, i + 1);
        assert(next.drop_last() =~= pre);
        assert(next.last() == cs@[i as int]);
        if cs[i] == sep {
            parts.push((i + 1, i + 1));
            assert forall|k: int| 0 <= k < parts@.len() implies {
                &&& start <= (#[trigger] parts@[k]).0 <= parts@[k].1 <= i + 1
                &&& cs@.subrange(parts@[k].0 as int, parts@[k].1 as int) == split(next, sep)[k]
            } by {
                if k == parts@.len() - 1 {
                    assert(cs@.subrange(i + 1, i + 1) =~= Seq::<char>::empty());
                } else {
                    assert(parts@[k] == prev[k]);
                }
            }
        } else {
            let last = parts.len() - 1;
            let (s0, _) = parts[last];
            parts.set(last, (s0, i + 1));
            assert forall|k: int| 0 <= k < parts@.len() implies {
                &&& start <= (#[trigger] parts@[k]).0 <= parts@[k].1 <= i + 1
                &&& cs@.subrange(parts@[k].0 as int, parts@[k].1 as int) == split(next, sep)[k]
            } by {
                if k == last {
                    assert(cs@.subrange(s0 as int, i + 1) =~= cs@.subrange(s0 as int, i as int).push(
                        cs@[i as int],
                    ));
                } else {
                    assert(parts@[k] == prev[k]);
                }
            }
        }
        i = i + 1;
    }
    parts
}

/// The ranges of the lines of `cs`.
pub fn line_ranges(cs: &Vec<char>) -> (ls: Vec<(usize, usize)>)
    ensures
        ls@.len() == lines(cs@).len(),
        forall|k: int|
            0 <= k < ls@.len() ==> {
                &&& (#[trigger] ls@[k]).0 <= ls@[k].1 <= cs@.len()
                &&& cs@.subrange(ls@[k].0 as int, ls@[k].1 as int) == lines(cs@)[k]
            },
{
    let pieces = split_range(cs, 0, cs.len(), '\n');
    let ghost p = split(cs@, '\n');
    proof {
        assert(cs@.subrange(0, cs@.len() as int) =~= cs@);
        lemma_split_nonempty(cs@, '\n');
    }
    let n = pieces.len();
    let mut ls: Vec<(usize, usize)> = Vec::new();
    let mut k: usize = 0;
    while k + 1 < n
        invariant
            n == pieces@.len(),
            n == p.len(),
            n >= 1,
            k + 1 <= n,
            p == split(cs@, '\n'),
            ls@.len() == k,
            forall|j: int|
                0 <= j < n ==> {
                    &&& (#[trigger] pieces@[j]).0 <= pieces@[j].1 <= cs@.len()
                    &&& cs@.subrange(pieces@[j].0 as int, pieces@[j].1 as int) == p[j]
                },
            forall|j: int|
                0 <= j < k ==> {
                    &&& (#[trigger] ls@[j]).0 <= ls@[j].1 <= cs@.len()
                    &&& cs@.subrange(ls@[j].0 as int, ls@[j].1 as int) == strip_cr(p[j])
                },
        decreases n - k,
    {
        let (a, b) = pieces[k];
        let ghost piece = cs@.subrange(a as int, b as int);
        assert(piece == p[k as int]);
        if a < b && cs[b - 1] == '\r' {
            assert(cs@.subrange(a as int, b - 1) =~= piece.drop_last());
            ls.push((a, b - 1));
        } else {
            ls.push((a, b));
        }
        k = k + 1;
    }
    let (a, b) = pieces[n - 1];
    let ghost ended = Seq::new((p.len() - 1) as nat, |i: int| strip_cr(p[i]));
    if a < b {
        ls.push((a, b));
    } else {
        assert(cs@.subrange(a as int, b as int) =~= Seq::<char>::empty());
    }
    proof {
        assert forall|j: int| 0 <= j < ls@.len() implies {
            &&& (#[trigger] ls@[j]).0 <= ls@[j].1 <= cs@.len()
            &&& cs@.subrange(ls@[j].0 as int, ls@[j].1 as int) == lines(cs@)[j]
        } by {
            if j < n - 1 {
                assert(lines(cs@)[j] == ended[j]);
            }
        }
    }
    ls
}

/// What `cs[start..end].parse::<u32>()` gives.
pub fn parse_u32_range(cs: &Vec<char>, start: usize, end: usize) -> (r: Option<u32>)
    requires
        start <= end <= cs@.len(),
    ensures
        r == parse_u32(cs@.subrange(start as int, end as int)),
{
    let ghost s = cs@.subrange(start as int, end as int);
    let mut i = start;
    if i < end && cs[i] == '+' {
        i = i + 1;
    }
    let ghost d = cs@.subrange(i as int, end as int);
    assert(d =~= (if s.len() > 0 && s[0] == '+' { s.drop_first() } else { s }));
    if i == end {
        return None;
    }
    let digits_start = i;
    let mut value: u64 = 0;
    while i < end
        invariant
            digits_start <= i <= end <= cs@.len(),
            d == cs@.subrange(digits_start as int, end as int),
            s == cs@.subrange(start as int, end as int),
            d == (if s.len() > 0 && s[0] == '+' { s.drop_first() } else { s }),
            d.len() > 0,
            value == digits_value(d.take(i - digits_start)),
            value <= u32::MAX,
            all_digits(d.take(i - digits_start)),
        decreases end - i,
    {
        let c = cs[i];
        let ghost k = i - digits_start;
        assert(d.take(k + 1).drop_last() =~= d.take(k));
        assert(d[k] == c);
        if c < '0' || c > '9' {
            assert(!all_digits(d));
            assert(parse_u32(s) is None);
            return None;
        }
        value = value * 10 + (c as u32 - '0' as u32) as u64;
        assert(all_digits(d.take(k + 1)));
        if value > 0xffff_ffff {
            proof {
                if all_digits(d) {
                    lemma_digits_value_grows(d, k + 1);
                }
            }
            assert(parse_u32(s) is None);
            return None;
        }
        i = i + 1;
    }
    assert(d.take(i - digits_start) =~= d);
    Some(value as u32)
}

/// Whether `cs[start..end]` lowercases to the lowercase ASCII word `w`.
pub fn range_is_word(cs: &Vec<char>, start: usize, end: usize, w: &str) -> (b: bool)
    requires
        start <= end <= cs@.len(),
    ensures
        b == lowers_to_word(cs@.subrange(start as int, end as int), w@),
{
    let wc = chars_of(w);
    if end - start != wc.len() {
        return false;
    }
    let mut i: usize = 0;
    while i < wc.len()
        invariant
            wc@ == w@,
            end - start == wc@.len(),
            start <= end <= cs@.len(),
            i <= wc@.len(),
            forall|j: int|
                0 <= j < i ==> lowers_to(
                    #[trigger] cs@.subrange(start as int, end as int)[j],
                    wc@[j],
                ),
        decreases wc@.len() - i,
    {
        let c = cs[start + i];
        let l = wc[i];
        let ok = c == l || ('a' <= l && l <= 'z' && c as u32 == l as u32 - 32);
        assert(cs@.subrange(start as int, end as int)[i as int] == c);
        if !ok {
            return false;
        }
        i = i + 1;
    }
    true
}

} // verus!
