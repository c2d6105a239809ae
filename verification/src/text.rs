//! Character-level helpers shared by the question and answer parsers.

use vstd::prelude::*;

verus! {

/// The texts of a list of strings.
pub open spec fn texts(v: Seq<String>) -> Seq<Seq<char>> {
    v.map_values(|a: String| a@)
}

/// The number that an answer letter stands for: `a` is 0, `b` 1, `c` 2, `d` 3.
pub open spec fn letter_index(t: Seq<char>) -> Option<usize> {
    if t.len() == 1 && 'a' <= t[0] && t[0] <= 'd' {
        Some((t[0] as int - 'a' as int) as usize)
    } else {
        None
    }
}

/// Whether two strings hold the same characters.
pub fn str_equals(a: &str, b: &str) -> (r: bool)
    ensures
        r == (a@ == b@),
{
    let n = a.unicode_len();
    if n != b.unicode_len() {
        return false;
    }
    let mut i: usize = 0;
    while i < n
        invariant
            n == a@.len(),
            n == b@.len(),
            i <= n,
            forall|j: int| 0 <= j < i ==> a@[j] == b@[j],
        decreases n - i,
    {
        if a.get_char(i) != b.get_char(i) {
            return false;
        }
        i += 1;
    }
    assert(a@ =~= b@);
    true
}

/// Reads a one-letter answer field (`a` to `d`) as its number.
pub fn parse_letter(t: &str) -> (r: Option<usize>)
    ensures
        match r {
            Some(v) => letter_index(t@) == Some(v),
            None => letter_index(t@) is None,
        },
{
    if t.unicode_len() != 1 {
        return None;
    }
    let c = t.get_char(0);
    if c == 'a' {
        Some(0)
    } else if c == 'b' {
        Some(1)
    } else if c == 'c' {
        Some(2)
    } else if c == 'd' {
        Some(3)
    } else {
        None
    }
}

/// The pieces of `s` between the occurrences of `sep`, in order, as
/// `str::split` with a `char` pattern yields them: there is always at least
/// one piece, and `k` separators give `k + 1` pieces.
pub open spec fn split_on(s: Seq<char>, sep: char) -> Seq<Seq<char>>
    decreases s.len(),
{
    if s.len() == 0 {
        seq![Seq::<char>::empty()]
    } else {
        let prev = split_on(s.drop_last(), sep);
        if s.last() == sep {
            prev.push(Seq::<char>::empty())
        } else {
            prev.update(prev.len() - 1, prev.last().push(s.last()))
        }
    }
}

/// `split_on` never yields an empty list of pieces.
pub proof fn lemma_split_on_nonempty(s: Seq<char>, sep: char)
    ensures
        split_on(s, sep).len() >= 1,
    decreases s.len(),
{
    if s.len() > 0 {
        lemma_split_on_nonempty(s.drop_last(), sep);
    }
}

/// Splits `s` at every `sep`, as `s.split(sep)` does, collecting the pieces.
pub fn split_fields(s: &str, sep: char) -> (r: Vec<String>)
    ensures
        r@.map_values(|f: String| f@) == split_on(s@, sep),
{
    let n = s.unicode_len();
    let mut fields: Vec<String> = Vec::new();
    let mut start: usize = 0;
    let mut i: usize = 0;
    proof {
        assert(s@.take(0) =~= Seq::<char>::empty());
    }
    while i < n
        invariant
            n == s@.len(),
            start <= i <= n,
            fields@.map_values(|f: String| f@).push(s@.subrange(start as int, i as int))
                == split_on(s@.take(i as int), sep),
        decreases n - i,
    {
        let c = s.get_char(i);
        proof {
            lemma_split_on_nonempty(s@.take(i as int), sep);
            assert(s@.take(i + 1).drop_last() =~= s@.take(i as int));
        }
        if c == sep {
            let piece = s.substring_char(start, i).to_owned();
            let ghost before = fields@.map_values(|f: String| f@);
            fields.push(piece);
            assert(fields@.map_values(|f: String| f@) =~= before.push(s@.subrange(start as int, i as int)));
            assert(s@.subrange((i + 1) as int, (i + 1) as int) =~= Seq::<char>::empty());
            start = i + 1;
        } else {
            let ghost before = fields@.map_values(|f: String| f@);
            assert(s@.subrange(start as int, (i + 1) as int) =~= s@.subrange(start as int, i as int).push(c));
            assert(before.push(s@.subrange(start as int, (i + 1) as int)) =~= before.push(s@.subrange(start as int, i as int)).update(before.len() as int, s@.subrange(start as int, i as int).push(c)));
        }
        i += 1;
    }
    let last = s.substring_char(start, n).to_owned();
    let ghost before = fields@.map_values(|f: String| f@);
    fields.push(last);
    assert(fields@.map_values(|f: String| f@) =~= before.push(s@.subrange(start as int, n as int)));
    assert(s@.take(n as int) =~= s@);
    fields
}

/// Unicode's White_Space property, which `char::is_whitespace` tests.
pub open spec fn is_white_space(c: char) -> bool {
    ||| ('\t' <= c && c <= '\r')
    ||| c == ' '
    ||| c == '\u{85}'
    ||| c == '\u{a0}'
    ||| c == '\u{1680}'
    ||| ('\u{2000}' <= c && c <= '\u{200a}')
    ||| c == '\u{2028}'
    ||| c == '\u{2029}'
    ||| c == '\u{202f}'
    ||| c == '\u{205f}'
    ||| c == '\u{3000}'
}

/// Whether a character has Unicode's White_Space property, as
/// `char::is_whitespace` tells.
fn char_is_whitespace(c: char) -> (r: bool)
    ensures
        r == is_white_space(c),
{
    ('\t' <= c && c <= '\r')
        || c == ' '
        || c == '\u{85}'
        || c == '\u{a0}'
        || c == '\u{1680}'
        || ('\u{2000}' <= c && c <= '\u{200a}')
        || c == '\u{2028}'
        || c == '\u{2029}'
        || c == '\u{202f}'
        || c == '\u{205f}'
        || c == '\u{3000}'
}

/// A line that holds only white space (what `trim` empties).
pub open spec fn is_blank(l: Seq<char>) -> bool {
    forall|i: int| 0 <= i < l.len() ==> is_white_space(#[trigger] l[i])
}

/// Whether a line holds only white space.
pub fn blank(l: &str) -> (r: bool)
    ensures
        r == is_blank(l@),
{
    let n = l.unicode_len();
    let mut i: usize = 0;
    while i < n
        invariant
            n == l@.len(),
            i <= n,
            forall|j: int| 0 <= j < i ==> is_white_space(#[trigger] l@[j]),
        decreases n - i,
    {
        if !char_is_whitespace(l.get_char(i)) {
            return false;
        }
        i += 1;
    }
    true
}

/// The lines of a text, as `str::lines` gives them: the text is cut at
/// each `\n`, a `\r` just before a `\n` is dropped, and a last, empty piece
/// after a final `\n` is no line.
pub open spec fn spec_lines(s: Seq<char>) -> Seq<Seq<char>> {
    let p = split_on(s, '\n');
    let m = if p.last().len() == 0 { p.len() - 1 } else { p.len() as int };
    Seq::new(m as nat, |i: int|
        if i < p.len() - 1 && p[i].len() > 0 && p[i].last() == '\r' { p[i].drop_last() } else { p[i] })
}

/// The lines of a list that are not blank, in order.
pub open spec fn keep_nonblank(ls: Seq<Seq<char>>) -> Seq<Seq<char>>
    decreases ls.len(),
{
    if ls.len() == 0 {
        Seq::<Seq<char>>::empty()
    } else if is_blank(ls.last()) {
        keep_nonblank(ls.drop_last())
    } else {
        keep_nonblank(ls.drop_last()).push(ls.last())
    }
}

/// The lines of a text that hold something other than white space, in
/// order: the lines a question file is read from.
pub fn question_lines(text: &str) -> (r: Vec<String>)
    ensures
        texts(r@) == keep_nonblank(spec_lines(text@)),
{
    let pieces = split_fields(text, '\n');
    let ghost p = split_on(text@, '\n');
    proof {
        lemma_split_on_nonempty(text@, '\n');
        assert(texts(pieces@) == p);
    }
    let np = pieces.len();
    let m = if pieces[np - 1].unicode_len() == 0 { np - 1 } else { np };
    let ghost ls = spec_lines(text@);
    assert(ls.len() == m);
    let mut r: Vec<String> = Vec::new();
    let mut i: usize = 0;
    while i < m
        invariant
            np == p.len(),
            p == split_on(text@, '\n'),
            texts(pieces@) == p,
            m <= np,
            ls == spec_lines(text@),
            ls.len() == m,
            i <= m,
            texts(r@) == keep_nonblank(ls.take(i as int)),
        decreases m - i,
    {
        let piece = pieces[i].as_str();
        let len = piece.unicode_len();
        assert(p[i as int] == pieces@[i as int]@);
        assert(ls[i as int] == (if (i as int) < p.len() - 1 && p[i as int].len() > 0 && p[i as int].last() == '\r' {
            p[i as int].drop_last()
        } else {
            p[i as int]
        }));
        let line: String = if i + 1 < np && len > 0 && piece.get_char(len - 1) == '\r' {
            let l = piece.substring_char(0, len - 1).to_owned();
            assert(l@ =~= p[i as int].drop_last());
            l
        } else {
            piece.to_owned()
        };
        assert(line@ =~= ls[i as int]);
        assert(ls.take(i + 1).drop_last() =~= ls.take(i as int));
        assert(ls.take(i + 1).last() == ls[i as int]);
        if !blank(line.as_str()) {
            let ghost before = texts(r@);
            r.push(line);
            assert(texts(r@) =~= before.push(ls[i as int]));
        }
        i += 1;
    }
    assert(ls.take(m as int) =~= ls);
    r
}

/// The value of a string of decimal digits.
pub open spec fn digits_value(d: Seq<char>) -> int
    decreases d.len(),
{
    if d.len() == 0 {
        0
    } else {
        digits_value(d.drop_last()) * 10 + (d.last() as int - '0' as int)
    }
}

/// A non-empty string of the ASCII digits `0`..`9`.
pub open spec fn is_digits(d: Seq<char>) -> bool {
    d.len() > 0 && forall|i: int| 0 <= i < d.len() ==> '0' <= #[trigger] d[i] <= '9'
}

/// What `str::parse::<usize>` gives: an optional `+` followed by one or
/// more decimal digits whose value fits in a `usize`.
pub open spec fn spec_parse_usize(s: Seq<char>) -> Option<usize> {
    let d = if s.len() > 0 && s[0] == '+' { s.drop_first() } else { s };
    if is_digits(d) && digits_value(d) <= usize::MAX {
        Some(digits_value(d) as usize)
    } else {
        None
    }
}

/// A longer string of digits has a value at least as large.
pub proof fn lemma_digits_prefix(d: Seq<char>, k: int)
    requires
        0 <= k <= d.len(),
        forall|i: int| 0 <= i < d.len() ==> '0' <= #[trigger] d[i] <= '9',
    ensures
        digits_value(d.take(k)) <= digits_value(d),
        digits_value(d.take(k)) >= 0,
    decreases d.len(),
{
    if d.len() > 0 {
        if k == d.len() {
            assert(d.take(k) =~= d);
        } else {
            assert(d.drop_last().take(k) =~= d.take(k));
        }
        if k < d.len() {
            lemma_digits_prefix(d.drop_last(), k);
        }
        lemma_digits_prefix(d.drop_last(), d.len() - 1);
        assert(d.drop_last().take(d.len() - 1) =~= d.drop_last());
    } else {
        assert(d.take(k) =~= d);
    }
}

/// Reads a decimal number, as `str::parse::<usize>` does: an optional `+`
/// followed by one or more digits `0`..`9` whose value fits in a `usize`.
pub fn parse_number(s: &str) -> (r: Option<usize>)
    ensures
        r == spec_parse_usize(s@),
{
    let n = s.unicode_len();
    let start: usize = if n > 0 && s.get_char(0) == '+' { 1 } else { 0 };
    let ghost d = if s@.len() > 0 && s@[0] == '+' { s@.drop_first() } else { s@ };
    assert(d =~= s@.skip(start as int));
    if start == n {
        return None;
    }
    let mut value: usize = 0;
    let mut i: usize = start;
    while i < n
        invariant
            n == s@.len(),
            start <= i <= n,
            d == s@.skip(start as int),
            d == (if s@.len() > 0 && s@[0] == '+' { s@.drop_first() } else { s@ }),
            forall|j: int| 0 <= j < i - start ==> '0' <= #[trigger] d[j] <= '9',
            value == digits_value(d.take(i - start)),
        decreases n - i,
    {
        let c = s.get_char(i);
        assert(c == d[i - start]);
        if c < '0' || c > '9' {
            assert(!is_digits(d)) by {
                assert(!('0' <= d[i - start] && d[i - start] <= '9'));
            }
            return None;
        }
        assert(d.take(i - start + 1).drop_last() =~= d.take(i - start));
        assert(d.take(i - start + 1).last() == c);
        let digit = (c as u32 - '0' as u32) as usize;
        let next = match value.checked_mul(10) {
            Some(v) => v.checked_add(digit),
            None => None,
        };
        match next {
            Some(v) => { value = v; },
            None => {
                proof {
                    assert(digits_value(d.take(i - start + 1)) == value * 10 + digit);
                    if is_digits(d) {
                        lemma_digits_prefix(d, i - start + 1);
                    }
                }
                return None;
            },
        }
        i += 1;
    }
    assert(d.take(n - start) =~= d);
    Some(value)
}

} // verus!
