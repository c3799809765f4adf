//! Character-level helpers: Unicode character classes and case mapping
//! (alphabetic characters and case from std; whitespace stated here), and conversions between `str`, `String` and `Vec<char>`.

use vstd::prelude::*;

verus! {

/// What `char::is_alphabetic` answers for `c` (the Unicode `Alphabetic` property).
pub uninterp spec fn char_is_alphabetic(c: char) -> bool;

/// What `char::to_lowercase` yields for `c` (its Unicode lowercase mapping).
pub uninterp spec fn char_lowercase(c: char) -> Seq<char>;

/// The Unicode `White_Space` property, which `char::is_whitespace` answers:
/// tab, line feed, vertical tab, form feed, carriage return, space, next
/// line, no-break space, ogham space mark, the spaces U+2000 to U+200A, line
/// separator, paragraph separator, narrow no-break space, medium mathematical
/// space and ideographic space.
pub open spec fn char_is_whitespace(c: char) -> bool {
    ||| '\u{9}' <= c && c <= '\u{d}'
    ||| c == ' '
    ||| c == '\u{85}'
    ||| c == '\u{a0}'
    ||| c == '\u{1680}'
    ||| '\u{2000}' <= c && c <= '\u{200a}'
    ||| c == '\u{2028}'
    ||| c == '\u{2029}'
    ||| c == '\u{202f}'
    ||| c == '\u{205f}'
    ||| c == '\u{3000}'
}

/// An ASCII letter.
pub open spec fn is_ascii_letter(c: char) -> bool {
    ('a' <= c && c <= 'z') || ('A' <= c && c <= 'Z')
}

/// An ASCII lowercase letter.
pub open spec fn is_ascii_lower(c: char) -> bool {
    'a' <= c && c <= 'z'
}

/// The lowercase form of an ASCII character: a capital letter becomes its
/// small letter, anything else stays.
pub open spec fn ascii_lower(c: char) -> char {
    if 'A' <= c && c <= 'Z' {
        ((c as int) + 32) as char
    } else {
        c
    }
}

/// Calls `char::is_alphabetic`. The result is named `char_is_alphabetic(c)`:
/// the table of alphabetic characters is Unicode's and is not restated here,
/// but for its ASCII part: among ASCII characters exactly the letters `a` to
/// `z` and `A` to `Z` have the `Alphabetic` property.
#[verifier::external_body]
pub(crate) fn is_alphabetic(c: char) -> (b: bool)
    ensures
        b == char_is_alphabetic(c),
        c < '\u{80}' ==> (b <==> is_ascii_letter(c)),
{
    c.is_alphabetic()
}

/// Calls `char::to_lowercase` and collects what it yields. The characters are
/// named `char_lowercase(c)`; the documentation of `to_lowercase` promises
/// that it yields one or more characters, which is stated, and so is the
/// ASCII part of Unicode's lowercase mapping: a capital ASCII letter maps to
/// its small letter, every other ASCII character to itself.
#[verifier::external_body]
pub(crate) fn to_lowercase(c: char) -> (r: Vec<char>)
    ensures
        r@ == char_lowercase(c),
        r@.len() >= 1,
        c < '\u{80}' ==> r@ == seq![ascii_lower(c)],
{
    c.to_lowercase().collect()
}

/// Whether `c` is whitespace in the sense of `char::is_whitespace`.
pub fn is_whitespace(c: char) -> (b: bool)
    ensures
        b == char_is_whitespace(c),
{
    ('\u{9}' <= c && c <= '\u{d}') || c == ' ' || c == '\u{85}' || c == '\u{a0}'
        || c == '\u{1680}' || ('\u{2000}' <= c && c <= '\u{200a}') || c == '\u{2028}'
        || c == '\u{2029}' || c == '\u{202f}' || c == '\u{205f}' || c == '\u{3000}'
}

/// Builds a `String` from characters (std's `FromIterator<&char>` for
/// `String`), which holds exactly those characters in order.
#[verifier::external_body]
pub(crate) fn string_from_chars(s: &[char]) -> (r: String)
    ensures
        r@ == s@,
{
    s.iter().collect()
}

/// The characters of `s`, in order.
pub fn chars_of(s: &str) -> (r: Vec<char>)
    ensures
        r@ == s@,
{
    let mut r: Vec<char> = Vec::new();
    for c in it: s.chars()
        invariant
            it.seq() == s@,
            r@ == it.seq().take(it.index() as int),
    {
        r.push(c);
    }
    r
}

/// The length of the longest prefix of `s` that holds no whitespace.
pub open spec fn word_len(s: Seq<char>) -> nat
    decreases s.len(),
{
    if s.len() == 0 || char_is_whitespace(s[0]) {
        0
    } else {
        1 + word_len(s.drop_first())
    }
}

/// A prefix with no whitespace is no longer than the sequence.
pub proof fn lemma_word_len_bound(s: Seq<char>)
    ensures
        word_len(s) <= s.len(),
        s.len() > 0 && !char_is_whitespace(s[0]) ==> word_len(s) >= 1,
    decreases s.len(),
{
    if s.len() > 0 && !char_is_whitespace(s[0]) {
        lemma_word_len_bound(s.drop_first());
    }
}

/// The whitespace-separated words of `s`, from left to right: what
/// `str::split_whitespace` yields.
pub open spec fn words(s: Seq<char>) -> Seq<Seq<char>>
    decreases s.len(),
{
    if s.len() == 0 {
        Seq::empty()
    } else if char_is_whitespace(s[0]) {
        words(s.drop_first())
    } else {
        proof {
            lemma_word_len_bound(s);
        }
        seq![s.take(word_len(s) as int)] + words(s.skip(word_len(s) as int))
    }
}

/// A run of `m` non-whitespace characters ended by whitespace or by the end
/// of `s` has length `word_len(s)`.
proof fn lemma_word_len_is(s: Seq<char>, m: int)
    requires
        0 <= m <= s.len(),
        forall|k: int| 0 <= k < m ==> !char_is_whitespace(#[trigger] s[k]),
        m == s.len() || char_is_whitespace(s[m]),
    ensures
        word_len(s) == m,
    decreases m,
{
    if m > 0 {
        assert forall|k: int| 0 <= k < m - 1 implies !char_is_whitespace(
            #[trigger] s.drop_first()[k],
        ) by {
            assert(s.drop_first()[k] == s[k + 1]);
        }
        assert(!char_is_whitespace(s[0]));
        lemma_word_len_is(s.drop_first(), m - 1);
    }
}

/// The whitespace-separated words of `s`, in order.
pub fn split_whitespace(s: &[char]) -> (r: Vec<Vec<char>>)
    ensures
        r@.map_values(|w: Vec<char>| w@) == words(s@),
{
    let len = s.len();
    let mut out: Vec<Vec<char>> = Vec::new();
    let mut i: usize = 0;
    assert(s@.skip(0) =~= s@);
    while i < len
        invariant
            len == s@.len(),
            i <= len,
            words(s@) == out@.map_values(|w: Vec<char>| w@) + words(s@.skip(i as int)),
        decreases len - i,
    {
        let ghost t = s@.skip(i as int);
        assert(t.drop_first() =~= s@.skip(i + 1));
        if is_whitespace(s[i]) {
            i = i + 1;
        } else {
            let mut w: Vec<char> = Vec::new();
            let mut j: usize = i;
            while j < len && !is_whitespace(s[j])
                invariant
                    len == s@.len(),
                    i <= j <= len,
                    w@ == s@.subrange(i as int, j as int),
                    forall|k: int| i <= k < j ==> !char_is_whitespace(#[trigger] s@[k]),
                decreases len - j,
            {
                w.push(s[j]);
                j = j + 1;
                assert(w@ =~= s@.subrange(i as int, j as int));
            }
            proof {
                assert forall|k: int| 0 <= k < j - i implies !char_is_whitespace(#[trigger] t[k]) by {
                    assert(t[k] == s@[i + k]);
                }
                if j < len {
                    assert(t[j - i] == s@[j as int]);
                }
                lemma_word_len_is(t, j - i);
                assert(t.take(j - i) =~= w@);
                assert(t.skip(j - i) =~= s@.skip(j as int));
            }
            let ghost prev = out@;
            out.push(w);
            assert(out@.map_values(|w: Vec<char>| w@) =~= prev.map_values(|w: Vec<char>| w@).push(s@.subrange(i as int, j as int)));
            i = j;
        }
    }
    assert(out@.map_values(|w: Vec<char>| w@) + words(s@.skip(len as int)) =~= out@.map_values(|w: Vec<char>| w@));
    out
}

/// The length of the longest prefix of `s` without a line feed.
pub open spec fn line_len(s: Seq<char>) -> nat
    decreases s.len(),
{
    if s.len() == 0 || s[0] == '\n' {
        0
    } else {
        1 + line_len(s.drop_first())
    }
}

/// A line is no longer than the text, and ends at a line feed unless it ends the text.
pub proof fn lemma_line_len_bound(s: Seq<char>)
    ensures
        line_len(s) <= s.len(),
        line_len(s) < s.len() ==> s[line_len(s) as int] == '\n',
    decreases s.len(),
{
    if s.len() > 0 && s[0] != '\n' {
        lemma_line_len_bound(s.drop_first());
        if line_len(s) < s.len() {
            assert(s[line_len(s) as int] == s.drop_first()[line_len(s.drop_first()) as int]);
        }
    }
}

/// A line without the carriage return that ends it, if any.
pub open spec fn strip_cr(l: Seq<char>) -> Seq<char> {
    if l.len() > 0 && l.last() == '\r' {
        l.drop_last()
    } else {
        l
    }
}

/// The lines of `s`, as `str::lines` yields them: split at `\n` or `\r\n`,
/// without the line endings; a last line ending adds no empty line.
pub open spec fn lines_spec(s: Seq<char>) -> Seq<Seq<char>>
    decreases s.len(),
{
    if s.len() == 0 {
        Seq::empty()
    } else {
        proof {
            lemma_line_len_bound(s);
        }
        if line_len(s) < s.len() {
            seq![strip_cr(s.take(line_len(s) as int))] + lines_spec(s.skip(line_len(s) as int + 1))
        } else {
            seq![s]
        }
    }
}

proof fn lemma_line_len_is(s: Seq<char>, m: int)
    requires
        0 <= m <= s.len(),
        forall|k: int| 0 <= k < m ==> #[trigger] s[k] != '\n',
        m == s.len() || s[m] == '\n',
    ensures
        line_len(s) == m,
    decreases m,
{
    if m > 0 {
        assert forall|k: int| 0 <= k < m - 1 implies #[trigger] s.drop_first()[k] != '\n' by {
            assert(s.drop_first()[k] == s[k + 1]);
        }
        assert(s[0] != '\n');
        lemma_line_len_is(s.drop_first(), m - 1);
    }
}

/// The lines of `s`, as `str::lines` yields them.
pub fn lines(s: &[char]) -> (r: Vec<Vec<char>>)
    ensures
        r@.map_values(|l: Vec<char>| l@) == lines_spec(s@),
{
    let len = s.len();
    let mut out: Vec<Vec<char>> = Vec::new();
    let mut i: usize = 0;
    assert(s@.skip(0) =~= s@);
    while i < len
        invariant
            len == s@.len(),
            i <= len,
            lines_spec(s@) == out@.map_values(|l: Vec<char>| l@) + lines_spec(s@.skip(i as int)),
        decreases len - i,
    {
        let ghost t = s@.skip(i as int);
        let mut line: Vec<char> = Vec::new();
        let mut j: usize = i;
        while j < len && s[j] != '\n'
            invariant
                len == s@.len(),
                i <= j <= len,
                line@ == s@.subrange(i as int, j as int),
                forall|k: int| i <= k < j ==> #[trigger] s@[k] != '\n',
            decreases len - j,
        {
            line.push(s[j]);
            j = j + 1;
            assert(line@ =~= s@.subrange(i as int, j as int));
        }
        proof {
            assert forall|k: int| 0 <= k < j - i implies #[trigger] t[k] != '\n' by {
                assert(t[k] == s@[i + k]);
            }
            if j < len {
                assert(t[j - i] == s@[j as int]);
            }
            lemma_line_len_is(t, j - i);
            assert(t.take(j - i) =~= line@);
        }
        let ghost prev = out@;
        if j < len {
            let n = line.len();
            if n > 0 && line[n - 1] == '\r' {
                line.pop();
            }
            assert(line@ == strip_cr(t.take(j - i)));
            out.push(line);
            assert(t.skip(j - i + 1) =~= s@.skip(j + 1));
            assert(out@.map_values(|l: Vec<char>| l@) =~= prev.map_values(|l: Vec<char>| l@).push(
                strip_cr(t.take(j - i)),
            ));
            i = j + 1;
        } else {
            assert(line@ =~= t);
            out.push(line);
            assert(out@.map_values(|l: Vec<char>| l@) =~= prev.map_values(|l: Vec<char>| l@).push(t));
            assert(s@.skip(len as int) =~= Seq::<char>::empty());
            i = len;
        }
    }
    assert(out@.map_values(|l: Vec<char>| l@) + lines_spec(s@.skip(len as int)) =~= out@.map_values(
        |l: Vec<char>| l@,
    ));
    out
}

/// The number of whitespace characters that begin `s`.
pub open spec fn leading_ws(s: Seq<char>) -> nat
    decreases s.len(),
{
    if s.len() == 0 || !char_is_whitespace(s[0]) {
        0
    } else {
        1 + leading_ws(s.drop_first())
    }
}

/// The number of whitespace characters that end `s`.
pub open spec fn trailing_ws(s: Seq<char>) -> nat
    decreases s.len(),
{
    if s.len() == 0 || !char_is_whitespace(s.last()) {
        0
    } else {
        1 + trailing_ws(s.drop_last())
    }
}

/// `s` without its leading and trailing whitespace, as `str::trim` gives it.
pub open spec fn trim_spec(s: Seq<char>) -> Seq<char> {
    let t = s.skip(leading_ws(s) as int);
    t.take(t.len() - trailing_ws(t))
}

proof fn lemma_leading_ws(s: Seq<char>, m: int)
    requires
        0 <= m <= s.len(),
        forall|k: int| 0 <= k < m ==> char_is_whitespace(#[trigger] s[k]),
        m == s.len() || !char_is_whitespace(s[m]),
    ensures
        leading_ws(s) == m,
    decreases m,
{
    if m > 0 {
        assert forall|k: int| 0 <= k < m - 1 implies char_is_whitespace(#[trigger] s.drop_first()[k]) by {
            assert(s.drop_first()[k] == s[k + 1]);
        }
        assert(char_is_whitespace(s[0]));
        lemma_leading_ws(s.drop_first(), m - 1);
    }
}

proof fn lemma_trailing_ws(s: Seq<char>, m: int)
    requires
        0 <= m <= s.len(),
        forall|k: int| s.len() - m <= k < s.len() ==> char_is_whitespace(#[trigger] s[k]),
        m == s.len() || !char_is_whitespace(s[s.len() - m - 1]),
    ensures
        trailing_ws(s) == m,
    decreases m,
{
    if m > 0 {
        assert forall|k: int| s.drop_last().len() - (m - 1) <= k < s.drop_last().len() implies char_is_whitespace(#[trigger] s.drop_last()[k]) by {
            assert(s.drop_last()[k] == s[k]);
        }
        assert(char_is_whitespace(s.last()));
        if m - 1 < s.drop_last().len() {
            assert(s.drop_last()[s.drop_last().len() - (m - 1) - 1] == s[s.len() - m - 1]);
        }
        lemma_trailing_ws(s.drop_last(), m - 1);
    }
}

/// `s` without its leading and trailing whitespace.
pub fn trim(s: &[char]) -> (r: Vec<char>)
    ensures
        r@ == trim_spec(s@),
{
    let len = s.len();
    let mut a: usize = 0;
    while a < len && is_whitespace(s[a])
        invariant
            len == s@.len(),
            a <= len,
            forall|k: int| 0 <= k < a ==> char_is_whitespace(#[trigger] s@[k]),
        decreases len - a,
    {
        a = a + 1;
    }
    proof {
        lemma_leading_ws(s@, a as int);
    }
    let ghost t = s@.skip(a as int);
    let mut b: usize = len;
    while b > a && is_whitespace(s[b - 1])
        invariant
            len == s@.len(),
            a <= b <= len,
            t == s@.skip(a as int),
            forall|k: int| b <= k < len ==> char_is_whitespace(#[trigger] s@[k]),
        decreases b - a,
    {
        b = b - 1;
    }
    proof {
        assert forall|k: int| t.len() - (len - b) <= k < t.len() implies char_is_whitespace(#[trigger] t[k]) by {
            assert(t[k] == s@[a + k]);
        }
        if b > a {
            assert(t[t.len() - (len - b) - 1] == s@[b - 1]);
        }
        lemma_trailing_ws(t, (len - b) as int);
    }
    let mut out: Vec<char> = Vec::new();
    for k in a..b
        invariant
            len == s@.len(),
            a <= b <= len,
            out@ == s@.subrange(a as int, k as int),
    {
        out.push(s[k]);
        assert(out@ =~= s@.subrange(a as int, k + 1));
    }
    assert(out@ =~= t.take(t.len() - trailing_ws(t)));
    out
}

} // verus!
