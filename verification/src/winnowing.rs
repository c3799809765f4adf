//! Winnowing: from text to a sequence of selected hashes.

use std::collections::hash_map::DefaultHasher;
use std::hash::Hasher;
use vstd::prelude::*;
use vstd::std_specs::hash::DefaultHasherAdditionalSpecFns;
use vstd::utf8::encode_utf8;

use crate::diff::{
    diff_parse_total, diff_parse_total_check, file_model, files_model, hunk_model, line_model,
    lines_numbered, parse_diff,
    unidiff_target_lines, DiffFile, DiffLine, FileModel, HunkModel, LineModel,
};
use crate::detector::lemma_filter_push;
use crate::text::{
    ascii_lower, is_ascii_letter, is_ascii_lower, char_is_alphabetic, char_lowercase, chars_of, is_alphabetic, split_whitespace,
    string_from_chars, to_lowercase, words,
};

verus! {

/// A selected hash together with where it was found.
#[derive(Debug, Clone, PartialEq, Eq, Hash)]
pub struct Fingerprint {
    pub hash: u64,
    pub location: Location,
}

/// Where a fingerprint was found: repository, commit, file and line.
#[derive(Debug, Clone, PartialEq, Eq, Hash, PartialOrd, Ord)]
pub struct Location {
    pub repo: String,
    pub commit: [u8; 20],
    pub file: String,
    pub line: usize,
}

/// A location as plain values: repository, commit, file, line.
pub type LocationView = (Seq<char>, Seq<u8>, Seq<char>, usize);

/// A fingerprint as plain values: its hash and its location.
pub type FingerprintView = (u64, LocationView);

impl View for Location {
    type V = LocationView;

    open spec fn view(&self) -> LocationView {
        (self.repo@, self.commit@, self.file@, self.line)
    }
}

impl View for Fingerprint {
    type V = FingerprintView;

    open spec fn view(&self) -> FingerprintView {
        (self.hash, self.location@)
    }
}

impl Location {
    /// A copy of this location.
    pub fn duplicate(&self) -> (r: Location)
        ensures
            r == *self,
    {
        Location {
            repo: self.repo.clone(),
            commit: self.commit,
            file: self.file.clone(),
            line: self.line,
        }
    }
}

impl Fingerprint {
    /// A copy of this fingerprint.
    pub fn duplicate(&self) -> (r: Fingerprint)
        ensures
            r == *self,
    {
        Fingerprint { hash: self.hash, location: self.location.duplicate() }
    }
}

/// The views of a sequence of fingerprints.
pub open spec fn fingerprints_view(s: Seq<Fingerprint>) -> Seq<FingerprintView> {
    s.map_values(|f: Fingerprint| f@)
}

// ---------------------------------------------------------------------------
// Specifications
// ---------------------------------------------------------------------------
/// The text as winnowing sees it: only its alphabetic characters, each
/// replaced by its lowercase mapping.
pub open spec fn clean_spec(s: Seq<char>) -> Seq<char> {
    s.filter(|c: char| char_is_alphabetic(c)).map_values(|c: char| char_lowercase(c)).flatten()
}

/// The `n`-grams of `s`: every run of `n` consecutive items of `s`, from left
/// to right. A sequence shorter than `n` has none.
pub open spec fn ngrams<T>(s: Seq<T>, n: nat) -> Seq<Seq<T>> {
    if s.len() < n {
        Seq::empty()
    } else {
        Seq::new((s.len() - n + 1) as nat, |i: int| s.subrange(i, i + n))
    }
}

/// The smallest item of a non-empty sequence.
pub open spec fn min_of(s: Seq<u64>) -> u64
    decreases s.len(),
{
    if s.len() <= 1 {
        s[0]
    } else {
        let m = min_of(s.drop_last());
        if s.last() < m {
            s.last()
        } else {
            m
        }
    }
}

/// The hash of a string under std's `DefaultHasher` as `Hash for str` feeds
/// it: the UTF-8 bytes of the string, then the byte `0xff`.
pub open spec fn str_hash(s: Seq<char>) -> u64 {
    DefaultHasher::spec_finish(seq![encode_utf8(s), seq![0xffu8]])
}

/// The hashes of the `n`-grams of the cleaned text.
pub open spec fn gram_hashes(input: Seq<char>, n: nat) -> Seq<u64> {
    ngrams(clean_spec(input), n).map_values(|g: Seq<char>| str_hash(g))
}

/// Winnowing with n-grams and windows of the same size `n`: the minimum of
/// every window of `n` consecutive n-gram hashes.
pub open spec fn winnow_spec(input: Seq<char>, n: nat) -> Seq<u64> {
    ngrams(gram_hashes(input, n), n).map_values(|w: Seq<u64>| min_of(w))
}

/// The n-gram size and window size used for the lines of a diff.
pub const LINE_WINDOW: u32 = 10;

/// The selected hashes of one target line, each with the line's number.
pub open spec fn line_hashes(l: LineModel) -> Seq<(u64, usize)> {
    winnow_spec(l.0, LINE_WINDOW as nat).map_values(|h: u64| (h, l.1->0))
}

/// The predicate "this target line was added".
pub open spec fn added_line() -> spec_fn(LineModel) -> bool {
    |l: LineModel| l.2 == seq!['+']
}

/// The selected hashes of the added lines of a hunk, line after line: a
/// document is made of the additive changes of its hunks.
pub open spec fn hunk_hashes(h: HunkModel) -> Seq<(u64, usize)> {
    h.filter(added_line()).map_values(|l: LineModel| line_hashes(l)).flatten()
}

/// The selected hashes of the hunks of a file, hunk after hunk.
pub open spec fn file_hashes(f: FileModel) -> Seq<(u64, usize)> {
    f.1.map_values(|h: HunkModel| hunk_hashes(h)).flatten()
}

/// Each (hash, line) paired with the file name.
pub open spec fn with_file(s: Seq<(u64, usize)>, file: Seq<char>) -> Seq<(u64, usize, Seq<char>)> {
    s.map_values(|p: (u64, usize)| (p.0, p.1, file))
}

/// The selected hashes of all files of a commit, file after file, with the
/// line and the file they come from.
pub open spec fn commit_hashes(fs: Seq<FileModel>) -> Seq<(u64, usize, Seq<char>)> {
    fs.map_values(|f: FileModel| with_file(file_hashes(f), f.0)).flatten()
}

/// Fingerprints for (hash, line, file) triples of one commit of one
/// repository.
pub open spec fn fingerprints_of(
    s: Seq<(u64, usize, Seq<char>)>,
    commit: Seq<u8>,
    repo: Seq<char>,
) -> Seq<FingerprintView> {
    s.map_values(|t: (u64, usize, Seq<char>)| (t.0, (repo, commit, t.2, t.1)))
}

/// The fingerprints of a commit.
pub open spec fn winnow_commit(fs: Seq<FileModel>, commit: Seq<u8>, repo: Seq<char>) -> Seq<
    FingerprintView,
> {
    fingerprints_of(commit_hashes(fs), commit, repo)
}

/// The view of (hash, line, file) triples.
pub open spec fn triples_view(s: Seq<(u64, usize, String)>) -> Seq<(u64, usize, Seq<char>)> {
    s.map_values(|t: (u64, usize, String)| (t.0, t.1, t.2@))
}

/// Why a text could not be read as hexadecimal bytes.
#[derive(Debug, Clone, Copy, PartialEq, Eq, Structural)]
pub enum HexError {
    /// A pair of characters is not a base-16 number.
    InvalidDigit,
    /// An odd number of characters is left for the last byte.
    OddLength,
}

/// The value of a base-16 digit.
pub open spec fn hex_digit(c: char) -> Option<u8> {
    if '0' <= c <= '9' {
        Some((c as int - '0' as int) as u8)
    } else if 'a' <= c <= 'f' {
        Some((c as int - 'a' as int + 10) as u8)
    } else if 'A' <= c <= 'F' {
        Some((c as int - 'A' as int + 10) as u8)
    } else {
        None
    }
}

/// What `u8::from_str_radix` makes of the two-character string `ab` in base
/// 16: two digits, or a `+` sign and one digit.
pub open spec fn hex_pair(a: char, b: char) -> Option<u8> {
    if a == '+' {
        hex_digit(b)
    } else {
        match (hex_digit(a), hex_digit(b)) {
            (Some(x), Some(y)) => Some((16 * x + y) as u8),
            _ => None,
        }
    }
}

/// Whether `c` takes two bytes in UTF-8, so that a two-byte slice of the
/// text can hold it alone.
pub open spec fn two_byte_char(c: char) -> bool {
    '\u{80}' <= c && c < '\u{800}'
}

/// Hexadecimal text read two characters at a time, from the left. A lone
/// last character is an odd length, unless it takes two bytes in UTF-8: the
/// two-byte slice that holds it is then read, and is no digit.
pub open spec fn decode_hex_spec(s: Seq<char>) -> Result<Seq<u8>, HexError>
    decreases s.len(),
{
    if s.len() == 0 {
        Ok(Seq::empty())
    } else if s.len() == 1 {
        if two_byte_char(s[0]) {
            Err(HexError::InvalidDigit)
        } else {
            Err(HexError::OddLength)
        }
    } else {
        match hex_pair(s[0], s[1]) {
            None => Err(HexError::InvalidDigit),
            Some(b) => match decode_hex_spec(s.skip(2)) {
                Ok(rest) => Ok(seq![b] + rest),
                Err(e) => Err(e),
            },
        }
    }
}

/// The 20 bytes of a commit id: the decoded bytes, then zeros.
pub open spec fn commit_bytes(bytes: Seq<u8>) -> Seq<u8> {
    bytes + Seq::new((20 - bytes.len()) as nat, |i: int| 0u8)
}

// ---------------------------------------------------------------------------
// Lemmas
// ---------------------------------------------------------------------------
/// `min_of` is an item of the sequence and no item is smaller.
pub proof fn lemma_min_of(s: Seq<u64>)
    requires
        s.len() > 0,
    ensures
        s.contains(min_of(s)),
        forall|i: int| 0 <= i < s.len() ==> min_of(s) <= #[trigger] s[i],
    decreases s.len(),
{
    if s.len() > 1 {
        lemma_min_of(s.drop_last());
        let m = min_of(s.drop_last());
        let j = choose|j: int| 0 <= j < s.drop_last().len() && s.drop_last()[j] == m;
        assert(s[j] == m);
        assert forall|i: int| 0 <= i < s.len() implies min_of(s) <= #[trigger] s[i] by {
            if i < s.len() - 1 {
                assert(s.drop_last()[i] == s[i]);
            }
        }
        if s.last() < m {
            assert(s[s.len() - 1] == min_of(s));
        }
    } else {
        assert(s[0] == min_of(s));
    }
}

/// A value in a sequence no greater than every item is its `min_of`.
pub proof fn lemma_min_of_unique(s: Seq<u64>, m: u64)
    requires
        s.contains(m),
        forall|i: int| 0 <= i < s.len() ==> m <= #[trigger] s[i],
    ensures
        min_of(s) == m,
{
    lemma_min_of(s);
    let j = choose|j: int| 0 <= j < s.len() && s[j] == m;
    let k = choose|k: int| 0 <= k < s.len() && s[k] == min_of(s);
    assert(m <= s[k]);
    assert(min_of(s) <= s[j]);
}

/// Cleaning one more character appends its contribution.
proof fn lemma_clean_push(s: Seq<char>, c: char)
    ensures
        clean_spec(s.push(c)) == clean_spec(s) + (if char_is_alphabetic(c) {
            char_lowercase(c)
        } else {
            Seq::empty()
        }),
{
    reveal(Seq::filter);
    let p = |c: char| char_is_alphabetic(c);
    let f = |c: char| char_lowercase(c);
    assert(s.push(c).drop_last() =~= s);
    let fs = s.filter(p);
    if char_is_alphabetic(c) {
        assert(s.push(c).filter(p) == fs.push(c));
        assert(fs.push(c).map_values(f) =~= fs.map_values(f).push(char_lowercase(c)));
        fs.map_values(f).lemma_flatten_push(char_lowercase(c));
    } else {
        assert(s.push(c).filter(p) == fs);
        assert(clean_spec(s) + Seq::<char>::empty() =~= clean_spec(s));
    }
}

// ---------------------------------------------------------------------------
// Executable functions
// ---------------------------------------------------------------------------
/// Every character of `s` is ASCII.
pub open spec fn all_ascii(s: Seq<char>) -> bool {
    forall|k: int| 0 <= k < s.len() ==> #[trigger] s[k] < '\u{80}'
}

/// Every character of `s` is a small ASCII letter.
pub open spec fn all_ascii_lower(s: Seq<char>) -> bool {
    forall|k: int| 0 <= k < s.len() ==> is_ascii_lower(#[trigger] s[k])
}

/// The cleaned form of ASCII text: its letters, lowercased.
pub open spec fn clean_ascii(s: Seq<char>) -> Seq<char> {
    s.filter(|c: char| is_ascii_letter(c)).map_values(|c: char| ascii_lower(c))
}

/// Keeps the alphabetic characters of `input`, lowercased. On ASCII text
/// this is its letters, lowercased; cleaning leaves small letters only, and
/// leaves a text of small letters as it is, so that cleaning twice cleans
/// once.
pub fn clean(input: &str) -> (r: String)
    ensures
        r@ == clean_spec(input@),
        all_ascii(input@) ==> r@ == clean_ascii(input@),
        all_ascii(input@) ==> all_ascii_lower(r@),
        all_ascii_lower(input@) ==> r@ == input@,
{
    let chars = chars_of(input);
    let mut out: Vec<char> = Vec::new();
    let len = chars.len();
    for i in 0..len
        invariant
            len == chars@.len(),
            chars@ == input@,
            out@ == clean_spec(chars@.take(i as int)),
            all_ascii(chars@.take(i as int)) ==> out@ == clean_ascii(chars@.take(i as int)),
            all_ascii(chars@.take(i as int)) ==> all_ascii_lower(out@),
            all_ascii_lower(chars@.take(i as int)) ==> out@ == chars@.take(i as int),
    {
        let c = chars[i];
        let ghost prev = out@;
        proof {
            lemma_clean_push(chars@.take(i as int), c);
            assert(chars@.take(i + 1) =~= chars@.take(i as int).push(c));
            if all_ascii(chars@.take(i + 1)) {
                assert(chars@.take(i + 1)[i as int] == c);
                assert forall|k: int| 0 <= k < i implies #[trigger] chars@.take(i as int)[k] < '\u{80}' by {
                    assert(chars@.take(i as int)[k] == chars@.take(i + 1)[k]);
                }
            }
            if all_ascii_lower(chars@.take(i + 1)) {
                assert(chars@.take(i + 1)[i as int] == c);
                assert forall|k: int| 0 <= k < i implies is_ascii_lower(#[trigger] chars@.take(i as int)[k]) by {
                    assert(chars@.take(i as int)[k] == chars@.take(i + 1)[k]);
                }
            }
        }
        if is_alphabetic(c) {
            let mut low = to_lowercase(c);
            out.append(&mut low);
        } else {
            assert(out@ + Seq::<char>::empty() =~= out@);
        }
        proof {
            if all_ascii(chars@.take(i + 1)) {
                assert(c < '\u{80}');
                let p = |c: char| is_ascii_letter(c);
                let f = |c: char| ascii_lower(c);
                lemma_filter_push(chars@.take(i as int), c, p);
                let fl = chars@.take(i as int).filter(p);
                if is_ascii_letter(c) {
                    assert(fl.push(c).map_values(f) =~= fl.map_values(f).push(ascii_lower(c)));
                    assert(out@ =~= prev.push(ascii_lower(c)));
                } else {
                    assert(out@ =~= prev);
                }
                assert(out@ == clean_ascii(chars@.take(i + 1)));
                assert forall|k: int| 0 <= k < out@.len() implies is_ascii_lower(#[trigger] out@[k]) by {
                    if k >= prev.len() {
                        assert(out@[k] == ascii_lower(c));
                    }
                }
            }
            if all_ascii_lower(chars@.take(i + 1)) {
                assert(is_ascii_lower(c));
                assert(out@ =~= chars@.take(i + 1));
            }
        }
    }
    assert(chars@.take(len as int) =~= chars@);
    string_from_chars(out.as_slice())
}

/// Constructs the n-grams of `f`: every run of `n` consecutive items, in
/// order.
///
/// 4-gram example: `abcdefgh` => `abcd bcde cdef defg efgh`.
pub fn ngram<T: Copy>(f: &[T], n: u32) -> (r: Vec<Vec<T>>)
    requires
        n > 0 || f@.len() < usize::MAX,
    ensures
        r@.map_values(|w: Vec<T>| w@) == ngrams(f@, n as nat),
{
    let len = f.len();
    let n = n as usize;
    let mut v: Vec<Vec<T>> = Vec::new();
    if len < n {
        assert(v@.map_values(|w: Vec<T>| w@) =~= ngrams(f@, n as nat));
        return v;
    }
    let count = len - n + 1;
    for i in 0..count
        invariant
            len == f@.len(),
            count == len - n + 1,
            v@.len() == i,
            forall|k: int| 0 <= k < i ==> (#[trigger] v@[k])@ == f@.subrange(k, k + n),
    {
        let mut w: Vec<T> = Vec::new();
        for j in i..i + n
            invariant
                i + n <= len,
                len == f@.len(),
                w@ == f@.subrange(i as int, j as int),
        {
            w.push(f[j]);
            assert(w@ =~= f@.subrange(i as int, j + 1));
        }
        v.push(w);
    }
    assert(v@.map_values(|w: Vec<T>| w@) =~= ngrams(f@, n as nat));
    v
}

/// Selects the smallest hash of a window.
pub fn select_hash(hashes: &[u64]) -> (r: u64)
    requires
        hashes@.len() > 0,
    ensures
        r == min_of(hashes@),
        hashes@.contains(r),
        forall|i: int| 0 <= i < hashes@.len() ==> r <= #[trigger] hashes@[i],
{
    let mut min = hashes[0];
    let len = hashes.len();
    assert(hashes@[0] == min);
    for i in 0..len
        invariant
            len == hashes@.len(),
            len > 0,
            hashes@.contains(min),
            forall|k: int| 0 <= k < i ==> min <= #[trigger] hashes@[k],
            i == 0 ==> min == hashes@[0],
    {
        let v = hashes[i];
        if v < min {
            min = v;
        }
    }
    proof {
        lemma_min_of_unique(hashes@, min);
    }
    min
}

/// Hashes a string with std's `DefaultHasher`, feeding it as `Hash for str`
/// does: the string's bytes, then the byte `0xff`.
pub fn hash(t: &str) -> (h: u64)
    ensures
        h == str_hash(t@),
{
    let mut s = DefaultHasher::new();
    s.write(t.as_bytes());
    let end: [u8; 1] = [0xffu8];
    s.write(end.as_slice());
    assert(end@ =~= seq![0xffu8]);
    assert(s@ =~= seq![encode_utf8(t@), seq![0xffu8]]);
    s.finish()
}

/// Winnows a text: cleans it, hashes its `window`-grams, and keeps the
/// minimum hash of every `window` consecutive hashes.
pub fn winnow_str(input: &str, window: u32) -> (r: Vec<u64>)
    requires
        window > 0,
    ensures
        r@ == winnow_spec(input@, window as nat),
{
    let cleaned = clean(input);
    let chars = chars_of(cleaned.as_str());
    let grams = ngram(chars.as_slice(), window);
    let ghost gs = ngrams(clean_spec(input@), window as nat);
    proof {
        assert(gs.len() == grams@.len()) by {
            assert(grams@.map_values(|w: Vec<char>| w@).len() == grams@.len());
        }
    }
    let mut hashes: Vec<u64> = Vec::new();
    let glen = grams.len();
    for i in 0..glen
        invariant
            glen == grams@.len(),
            gs == ngrams(clean_spec(input@), window as nat),
            grams@.map_values(|w: Vec<char>| w@) == gs,
            hashes@.len() == i,
            forall|k: int| 0 <= k < i ==> #[trigger] hashes@[k] == str_hash(gs[k]),
    {
        let s = string_from_chars(grams[i].as_slice());
        assert(grams@.map_values(|w: Vec<char>| w@)[i as int] == grams@[i as int]@);
        let h = hash(s.as_str());
        hashes.push(h);
    }
    let ghost hs = gram_hashes(input@, window as nat);
    assert(hashes@ =~= hs);
    let windows = ngram(hashes.as_slice(), window);
    let mut out: Vec<u64> = Vec::new();
    let wlen = windows.len();
    let ghost ws = ngrams(hs, window as nat);
    assert(ws.len() == wlen) by {
        assert(windows@.map_values(|w: Vec<u64>| w@).len() == windows@.len());
    }
    for i in 0..wlen
        invariant
            wlen == windows@.len(),
            window > 0,
            ws == ngrams(hs, window as nat),
            ws.len() == wlen,
            windows@.map_values(|w: Vec<u64>| w@) == ws,
            out@.len() == i,
            forall|k: int| 0 <= k < i ==> #[trigger] out@[k] == min_of(ws[k]),
    {
        assert(windows@.map_values(|w: Vec<u64>| w@)[i as int] == windows@[i as int]@);
        assert(hs.len() >= window as nat);
        assert(ws[i as int] == hs.subrange(i as int, i + window as nat));
        assert(ws[i as int].len() == window);
        let m = select_hash(windows[i].as_slice());
        out.push(m);
    }
    assert(out@ =~= winnow_spec(input@, window as nat));
    out
}

/// Whether a target line was added (rather than kept as context).
pub fn is_added(line: &DiffLine) -> (r: bool)
    ensures
        r == (line.line_type@ == seq!['+']),
{
    let t = chars_of(line.line_type.as_str());
    if t.len() == 1 && t[0] == '+' {
        assert(t@ =~= seq!['+']);
        true
    } else {
        false
    }
}

/// The selected hashes of one target line, each paired with the line's
/// number.
pub fn winnow_line(line: &DiffLine) -> (r: Vec<(u64, usize)>)
    requires
        line.target_line_no is Some,
    ensures
        r@ == line_hashes(line_model(*line)),
{
    let n = match line.target_line_no {
        Some(n) => n,
        None => 0,
    };
    let hashes = winnow_str(line.value.as_str(), LINE_WINDOW);
    let mut out: Vec<(u64, usize)> = Vec::new();
    let len = hashes.len();
    for i in 0..len
        invariant
            len == hashes@.len(),
            out@ == hashes@.take(i as int).map_values(|h: u64| (h, n)),
    {
        out.push((hashes[i], n));
        assert(hashes@.take(i + 1).map_values(|h: u64| (h, n)) =~= hashes@.take(
            i as int,
        ).map_values(|h: u64| (h, n)).push((hashes@[i as int], n)));
    }
    assert(hashes@.take(len as int) =~= hashes@);
    assert(out@ =~= line_hashes(line_model(*line)));
    out
}

/// Pairs each (hash, line) with the file name.
pub fn add_file(incompletes: Vec<(u64, usize)>, file: &str) -> (r: Vec<(u64, usize, String)>)
    ensures
        triples_view(r@) == with_file(incompletes@, file@),
{
    let mut out: Vec<(u64, usize, String)> = Vec::new();
    let len = incompletes.len();
    for i in 0..len
        invariant
            len == incompletes@.len(),
            triples_view(out@) == with_file(incompletes@.take(i as int), file@),
    {
        let (h, l) = incompletes[i];
        let name = file.to_owned();
        let ghost prev = out@;
        out.push((h, l, name));
        assert(incompletes@.take(i + 1) =~= incompletes@.take(i as int).push((h, l)));
        assert(triples_view(out@) =~= triples_view(prev).push((h, l, file@)));
        assert(triples_view(out@) =~= with_file(incompletes@.take(i + 1), file@));
    }
    assert(incompletes@.take(len as int) =~= incompletes@);
    out
}

/// Turns (hash, line, file) triples into fingerprints of one commit of one
/// repository.
pub fn make_fingerprints(
    incompletes: Vec<(u64, usize, String)>,
    commit_hash: [u8; 20],
    repo: String,
) -> (r: Vec<Fingerprint>)
    ensures
        fingerprints_view(r@) == fingerprints_of(triples_view(incompletes@), commit_hash@, repo@),
{
    let mut out: Vec<Fingerprint> = Vec::new();
    let len = incompletes.len();
    for i in 0..len
        invariant
            len == incompletes@.len(),
            fingerprints_view(out@) == fingerprints_of(
                triples_view(incompletes@.take(i as int)),
                commit_hash@,
                repo@,
            ),
    {
        let t = &incompletes[i];
        let ghost prev = out@;
        let f = Fingerprint {
            hash: t.0,
            location: Location { repo: repo.clone(), commit: commit_hash, line: t.1, file: t.2.clone() },
        };
        out.push(f);
        assert(incompletes@.take(i + 1) =~= incompletes@.take(i as int).push(*t));
        assert(triples_view(incompletes@.take(i + 1)) =~= triples_view(incompletes@.take(i as int)).push((t.0, t.1, t.2@)));
        assert(fingerprints_view(out@) =~= fingerprints_view(prev).push((t.0, (repo@, commit_hash@, t.2@, t.1))));
        assert(fingerprints_view(out@) =~= fingerprints_of(
            triples_view(incompletes@.take(i + 1)),
            commit_hash@,
            repo@,
        ));
    }
    assert(incompletes@.take(len as int) =~= incompletes@);
    out
}

/// The fingerprints of a commit: every added line of every hunk of every
/// file is winnowed, and each selected hash is located by repository, commit,
/// file and line.
pub fn winnow(commit: &Vec<DiffFile>, commit_hash: [u8; 20], repo: &str) -> (r: Vec<Fingerprint>)
    requires
        lines_numbered(files_model(commit@)),
    ensures
        fingerprints_view(r@) == winnow_commit(files_model(commit@), commit_hash@, repo@),
{
    let ghost fs = files_model(commit@);
    let mut hash_line_file: Vec<(u64, usize, String)> = Vec::new();
    let nfiles = commit.len();
    for i in 0..nfiles
        invariant
            nfiles == commit@.len(),
            fs == files_model(commit@),
            lines_numbered(fs),
            triples_view(hash_line_file@) == commit_hashes(fs.take(i as int)),
    {
        let patchfile = &commit[i];
        let ghost fm = file_model(*patchfile);
        assert(fs[i as int] == fm);
        let mut hash_and_line: Vec<(u64, usize)> = Vec::new();
        let nhunks = patchfile.hunks.len();
        for j in 0..nhunks
            invariant
                nhunks == patchfile.hunks@.len(),
                fm == file_model(*patchfile),
                fs[i as int] == fm,
                0 <= i < fs.len(),
                lines_numbered(fs),
                hash_and_line@ == fm.1.take(j as int).map_values(|h: HunkModel| hunk_hashes(h)).flatten(),
        {
            let hunk = &patchfile.hunks[j];
            let ghost hm = hunk_model(*hunk);
            assert(fm.1[j as int] == hm);
            let ghost before = hash_and_line@;
            let nlines = hunk.target_lines.len();
            for k in 0..nlines
                invariant
                    nlines == hunk.target_lines@.len(),
                    hm == hunk_model(*hunk),
                    fm.1[j as int] == hm,
                    fs[i as int] == fm,
                    0 <= i < fs.len(),
                    0 <= j < fm.1.len(),
                    lines_numbered(fs),
                    hash_and_line@ == before + hm.take(k as int).filter(added_line()).map_values(
                        |l: LineModel| line_hashes(l),
                    ).flatten(),
            {
                let line = &hunk.target_lines[k];
                assert(hm[k as int] == line_model(*line));
                let ghost fl = hm.take(k as int).filter(added_line());
                proof {
                    lemma_filter_push(hm.take(k as int), hm[k as int], added_line());
                    assert(hm.take(k + 1) =~= hm.take(k as int).push(hm[k as int]));
                }
                if is_added(line) {
                    assert(fs[i as int].1[j as int][k as int].1 is Some);
                    let mut v = winnow_line(line);
                    let ghost prev = hash_and_line@;
                    hash_and_line.append(&mut v);
                    proof {
                        let f = |l: LineModel| line_hashes(l);
                        assert(fl.push(hm[k as int]).map_values(f) =~= fl.map_values(f).push(
                            line_hashes(hm[k as int]),
                        ));
                        fl.map_values(f).lemma_flatten_push(line_hashes(hm[k as int]));
                    }
                }
            }
            proof {
                let f = |h: HunkModel| hunk_hashes(h);
                assert(hm.take(nlines as int) =~= hm);
                assert(fm.1.take(j + 1).map_values(f) =~= fm.1.take(j as int).map_values(f).push(hunk_hashes(hm)));
                fm.1.take(j as int).map_values(f).lemma_flatten_push(hunk_hashes(hm));
            }
        }
        proof {
            assert(fm.1.take(nhunks as int) =~= fm.1);
        }
        let mut v = add_file(hash_and_line, patchfile.target_file.as_str());
        let ghost prev = hash_line_file@;
        hash_line_file.append(&mut v);
        proof {
            let f = |f: FileModel| with_file(file_hashes(f), f.0);
            assert(fs.take(i + 1).map_values(f) =~= fs.take(i as int).map_values(f).push(with_file(file_hashes(fm), fm.0)));
            fs.take(i as int).map_values(f).lemma_flatten_push(with_file(file_hashes(fm), fm.0));
            assert(triples_view(prev + v@) =~= triples_view(prev) + triples_view(v@));
        }
    }
    assert(fs.take(nfiles as int) =~= fs);
    make_fingerprints(hash_line_file, commit_hash, repo.to_owned())
}

/// The value of a base-16 digit.
fn hex_digit_value(c: char) -> (r: Option<u8>)
    ensures
        r == hex_digit(c),
{
    if '0' <= c && c <= '9' {
        Some(((c as u32) - ('0' as u32)) as u8)
    } else if 'a' <= c && c <= 'f' {
        Some(((c as u32) - ('a' as u32) + 10) as u8)
    } else if 'A' <= c && c <= 'F' {
        Some(((c as u32) - ('A' as u32) + 10) as u8)
    } else {
        None
    }
}

/// Reads a text as hexadecimal bytes, two characters per byte, each pair as
/// `u8::from_str_radix(pair, 16)` reads it.
pub fn decode_hex(s: &str) -> (r: Result<Vec<u8>, HexError>)
    ensures
        match r {
            Ok(v) => decode_hex_spec(s@) == Ok::<Seq<u8>, HexError>(v@),
            Err(e) => decode_hex_spec(s@) == Err::<Seq<u8>, HexError>(e),
        },
{
    let chars = chars_of(s);
    let len = chars.len();
    let mut out: Vec<u8> = Vec::new();
    let mut i: usize = 0;
    assert(chars@.skip(0) =~= chars@);
    while i < len
        invariant
            len == chars@.len(),
            chars@ == s@,
            i <= len,
            decode_hex_spec(s@) == match decode_hex_spec(chars@.skip(i as int)) {
                Ok(rest) => Ok(out@ + rest),
                Err(e) => Err(e),
            },
        decreases len - i,
    {
        let ghost t = chars@.skip(i as int);
        if i + 1 == len {
            let last = chars[i];
            assert(t[0] == chars@[i as int]);
            if '\u{80}' <= last && '\u{800}' > last {
                return Err(HexError::InvalidDigit);
            }
            return Err(HexError::OddLength);
        }
        assert(t[0] == chars@[i as int] && t[1] == chars@[i + 1]);
        let a = chars[i];
        let b = chars[i + 1];
        let byte = if a == '+' {
            hex_digit_value(b)
        } else {
            match (hex_digit_value(a), hex_digit_value(b)) {
                (Some(x), Some(y)) => {
                    assert(16 * x + y < 256) by (nonlinear_arith)
                        requires x < 16, y < 16;
                    Some(16 * x + y)
                },
                _ => None,
            }
        };
        proof {
            if a != '+' {
                if let (Some(x), Some(y)) = (hex_digit(a), hex_digit(b)) {
                    assert(x < 16 && y < 16);
                }
            }
        }
        match byte {
            None => {
                return Err(HexError::InvalidDigit);
            },
            Some(v) => {
                assert(t.skip(2) =~= chars@.skip(i + 2));
                let ghost prev = out@;
                out.push(v);
                proof {
                    match decode_hex_spec(t.skip(2)) {
                        Ok(rest) => {
                            assert(prev + (seq![v] + rest) =~= out@ + rest);
                        },
                        Err(e) => {},
                    }
                }
                i = i + 2;
            },
        }
    }
    assert(out@ + Seq::<u8>::empty() =~= out@);
    Ok(out)
}

/// Why no fingerprints could be made of a patch.
#[derive(Debug, Clone, PartialEq, Eq)]
pub enum PatchError {
    /// `unidiff` would panic on the patch, or may: reading it as `parse`
    /// does, it reaches a `+++` header before any `---` header, or, with a
    /// file open, a hunk header whose numbers are not ASCII digits or do not
    /// fit in `usize` (see `diff_parse_total`).
    UnsupportedDiff,
    /// `unidiff` could not parse the patch; the `Debug` text of its error.
    Diff(String),
    /// The patch has fewer than two whitespace-separated words, so no commit
    /// id.
    MissingCommitHash,
    /// The second word of the patch is not hexadecimal.
    BadCommitHash(HexError),
    /// The commit id has more than 20 bytes.
    CommitHashTooLong,
}

/// The commit id of a patch in `git format-patch` form: its second
/// whitespace-separated word.
pub fn commit_hash_word(patch: &str) -> (r: Option<String>)
    ensures
        match r {
            Some(w) => words(patch@).len() >= 2 && w@ == words(patch@)[1],
            None => words(patch@).len() < 2,
        },
{
    let chars = chars_of(patch);
    let ws = split_whitespace(chars.as_slice());
    assert(ws@.map_values(|w: Vec<char>| w@).len() == ws@.len());
    if ws.len() < 2 {
        None
    } else {
        assert(ws@.map_values(|w: Vec<char>| w@)[1] == ws@[1]@);
        Some(string_from_chars(ws[1].as_slice()))
    }
}

/// The fingerprints of a patch of one commit of repository `repo`: the patch
/// is parsed as a unified diff, its second word is read as the commit id
/// (hexadecimal, at most 20 bytes, padded with zeros), and every added line
/// is winnowed. A patch that `diff_parse_total` does not admit is refused
/// before it reaches the parser.
pub fn fingerprints_of_patch(patch: &str, repo: &str) -> (r: Result<Vec<Fingerprint>, PatchError>)
    ensures
        !diff_parse_total(patch@) ==> r matches Err(PatchError::UnsupportedDiff),
        diff_parse_total(patch@) ==> match unidiff_target_lines(patch@) {
            Err(m) => r matches Err(PatchError::Diff(e)) && e@ == m,
            Ok(files) => if words(patch@).len() < 2 {
                r matches Err(PatchError::MissingCommitHash)
            } else {
                match decode_hex_spec(words(patch@)[1]) {
                    Err(e) => r matches Err(PatchError::BadCommitHash(e2)) && e2 == e,
                    Ok(bytes) => if bytes.len() > 20 {
                        r matches Err(PatchError::CommitHashTooLong)
                    } else {
                        r matches Ok(fps) && fingerprints_view(fps@) == winnow_commit(
                            files,
                            commit_bytes(bytes),
                            repo@,
                        )
                    },
                }
            },
        },
{
    if !diff_parse_total_check(patch) {
        return Err(PatchError::UnsupportedDiff);
    }
    let files = match parse_diff(patch) {
        Ok(files) => files,
        Err(m) => {
            return Err(PatchError::Diff(m));
        },
    };
    let word = match commit_hash_word(patch) {
        Some(w) => w,
        None => {
            return Err(PatchError::MissingCommitHash);
        },
    };
    let bytes = match decode_hex(word.as_str()) {
        Ok(b) => b,
        Err(e) => {
            return Err(PatchError::BadCommitHash(e));
        },
    };
    if bytes.len() > 20 {
        return Err(PatchError::CommitHashTooLong);
    }
    let mut a: [u8; 20] = [0u8; 20];
    let n = bytes.len();
    for i in 0..n
        invariant
            n == bytes@.len(),
            n <= 20,
            forall|k: int| 0 <= k < i ==> a@[k] == bytes@[k],
            forall|k: int| i <= k < 20 ==> a@[k] == 0u8,
    {
        a[i] = bytes[i];
    }
    assert(a@ =~= commit_bytes(bytes@));
    Ok(winnow(&files, a, repo))
}

// ---------------------------------------------------------------------------
// Laws
// ---------------------------------------------------------------------------
/// The winnowing guarantee: when the cleaned forms of two texts share a run
/// of `2n - 1` characters (at `i` in the first, at `j` in the second), the
/// windows of n-gram hashes that start there are equal, so both texts select
/// the same hash there.
pub proof fn lemma_shared_text_shares_fingerprint(a: Seq<char>, b: Seq<char>, n: nat, i: int, j: int)
    requires
        n > 0,
        0 <= i,
        0 <= j,
        i + 2 * n - 1 <= clean_spec(a).len(),
        j + 2 * n - 1 <= clean_spec(b).len(),
        clean_spec(a).subrange(i, i + 2 * n - 1) == clean_spec(b).subrange(j, j + 2 * n - 1),
    ensures
        i < winnow_spec(a, n).len(),
        j < winnow_spec(b, n).len(),
        winnow_spec(a, n)[i] == winnow_spec(b, n)[j],
{
    let ca = clean_spec(a);
    let cb = clean_spec(b);
    let ha = gram_hashes(a, n);
    let hb = gram_hashes(b, n);
    let w = (2 * n - 1) as int;
    assert(ha.len() == ca.len() - n + 1);
    assert(hb.len() == cb.len() - n + 1);
    assert forall|k: int| 0 <= k < n implies #[trigger] ha[i + k] == hb[j + k] by {
        assert(ha[i + k] == str_hash(ca.subrange(i + k, i + k + n)));
        assert(hb[j + k] == str_hash(cb.subrange(j + k, j + k + n)));
        let sa = ca.subrange(i + k, i + k + n);
        let sb = cb.subrange(j + k, j + k + n);
        assert forall|m: int| 0 <= m < n implies #[trigger] sa[m] == sb[m] by {
            assert(ca.subrange(i, i + w)[k + m] == cb.subrange(j, j + w)[k + m]);
        }
        assert(ca.subrange(i + k, i + k + n) =~= cb.subrange(j + k, j + k + n));
    }
    assert(ha.subrange(i, i + n) =~= hb.subrange(j, j + n)) by {
        let wa = ha.subrange(i, i + n);
        let wb = hb.subrange(j, j + n);
        assert forall|k: int| 0 <= k < n implies #[trigger] wa[k] == wb[k] by {
            assert(ha[i + k] == hb[j + k]);
        }
    }
}

/// Each selected hash is the smallest of a window of `n` consecutive n-gram
/// hashes of the cleaned text, and a text with `L >= 2n - 1` cleaned
/// characters yields `L - 2n + 2` selected hashes (none when shorter).
pub proof fn lemma_winnow_selects_window_minimum(input: Seq<char>, n: nat)
    requires
        n > 0,
    ensures
        winnow_spec(input, n).len() == (if clean_spec(input).len() + 2 >= 2 * n {
            clean_spec(input).len() + 2 - 2 * n
        } else {
            0
        }),
        forall|k: int|
            0 <= k < winnow_spec(input, n).len() ==> {
                &&& gram_hashes(input, n).subrange(k, k + n).contains(
                    #[trigger] winnow_spec(input, n)[k],
                )
                &&& forall|m: int|
                    k <= m < k + n ==> winnow_spec(input, n)[k] <= gram_hashes(input, n)[m]
            },
{
    let h = gram_hashes(input, n);
    assert forall|k: int| 0 <= k < winnow_spec(input, n).len() implies {
        &&& h.subrange(k, k + n).contains(#[trigger] winnow_spec(input, n)[k])
        &&& forall|m: int| k <= m < k + n ==> winnow_spec(input, n)[k] <= h[m]
    } by {
        let win = h.subrange(k, k + n);
        lemma_min_of(win);
        assert forall|m: int| k <= m < k + n implies winnow_spec(input, n)[k] <= h[m] by {
            assert(win[m - k] == h[m]);
        }
    }
}

/// Texts whose cleaned forms agree (they differ only in characters that are
/// not alphabetic, or in what lowercases the same) select the same hashes.
pub proof fn lemma_winnow_depends_on_cleaned_text(a: Seq<char>, b: Seq<char>, n: nat)
    requires
        clean_spec(a) == clean_spec(b),
    ensures
        winnow_spec(a, n) == winnow_spec(b, n),
{
}

/// Every fingerprint of a commit carries the repository and the commit id it
/// was made for, and the commit's fingerprints are its (hash, line, file)
/// triples, one for one.
pub proof fn lemma_commit_fingerprints_located(fs: Seq<FileModel>, commit: Seq<u8>, repo: Seq<char>)
    ensures
        winnow_commit(fs, commit, repo).len() == commit_hashes(fs).len(),
        forall|k: int|
            0 <= k < winnow_commit(fs, commit, repo).len() ==> {
                let f = #[trigger] winnow_commit(fs, commit, repo)[k];
                &&& f.0 == commit_hashes(fs)[k].0
                &&& f.1 == (repo, commit, commit_hashes(fs)[k].2, commit_hashes(fs)[k].1)
            },
{
}

/// Extending a sequence keeps its n-grams: those of `xs` are the first
/// n-grams of `xs + zs`, in order.
pub proof fn lemma_ngrams_prefix<T>(xs: Seq<T>, zs: Seq<T>, n: nat)
    ensures
        ngrams(xs, n).is_prefix_of(ngrams(xs + zs, n)),
{
    let a = ngrams(xs, n);
    let b = ngrams(xs + zs, n);
    if xs.len() >= n {
        assert forall|i: int| 0 <= i < a.len() implies #[trigger] a[i] == b[i] by {
            assert(a[i] =~= b[i]);
        }
    }
    assert(a =~= b.take(a.len() as int));
}

/// The lowercase hexadecimal digit of a value below 16.
pub open spec fn hex_char(d: int) -> char {
    if d < 10 {
        (48 + d) as char
    } else {
        (87 + d) as char
    }
}

/// Bytes written as two lowercase hexadecimal digits each, as `{:02x}`
/// writes a byte.
pub open spec fn hex_encode(bytes: Seq<u8>) -> Seq<char>
    decreases bytes.len(),
{
    if bytes.len() == 0 {
        Seq::empty()
    } else {
        seq![hex_char(bytes[0] as int / 16), hex_char(bytes[0] as int % 16)] + hex_encode(bytes.skip(1))
    }
}

/// Decoding gives back the bytes that were written in hexadecimal.
pub proof fn lemma_decode_hex_encode(bytes: Seq<u8>)
    ensures
        decode_hex_spec(hex_encode(bytes)) == Ok::<Seq<u8>, HexError>(bytes),
    decreases bytes.len(),
{
    if bytes.len() > 0 {
        let b = bytes[0];
        let s = hex_encode(bytes);
        let hi = b as int / 16;
        let lo = b as int % 16;
        assert(hex_digit(hex_char(hi)) == Some(hi as u8));
        assert(hex_digit(hex_char(lo)) == Some(lo as u8));
        assert(s[0] == hex_char(hi) && s[1] == hex_char(lo));
        assert(s.len() >= 2);
        assert(hex_char(hi) != '+');
        assert(16 * hi + lo == b);
        assert(hex_pair(s[0], s[1]) == Some(b));
        assert(s.skip(2) =~= hex_encode(bytes.skip(1)));
        lemma_decode_hex_encode(bytes.skip(1));
        assert(seq![b] + bytes.skip(1) =~= bytes);
    } else {
        assert(bytes =~= Seq::<u8>::empty());
    }
}

/// The fingerprints of a commit are those of its files, file after file:
/// fingerprinting a commit that touches the files `fs1` and then `fs2` gives
/// the fingerprints of `fs1` followed by those of `fs2`.
pub proof fn lemma_commit_fingerprints_concat(
    fs1: Seq<FileModel>,
    fs2: Seq<FileModel>,
    commit: Seq<u8>,
    repo: Seq<char>,
)
    ensures
        winnow_commit(fs1 + fs2, commit, repo) == winnow_commit(fs1, commit, repo) + winnow_commit(
            fs2,
            commit,
            repo,
        ),
        winnow_commit(Seq::empty(), commit, repo) == Seq::<FingerprintView>::empty(),
{
    let g = |f: FileModel| with_file(file_hashes(f), f.0);
    assert((fs1 + fs2).map_values(g) =~= fs1.map_values(g) + fs2.map_values(g));
    vstd::seq_lib::lemma_flatten_concat(fs1.map_values(g), fs2.map_values(g));
    assert(winnow_commit(fs1 + fs2, commit, repo) =~= winnow_commit(fs1, commit, repo) + winnow_commit(
        fs2,
        commit,
        repo,
    ));
    assert(Seq::<FileModel>::empty().map_values(g) =~= Seq::<Seq<(u64, usize, Seq<char>)>>::empty());
    assert(winnow_commit(Seq::empty(), commit, repo) =~= Seq::<FingerprintView>::empty());
}

/// The fingerprints of one file, as a commit of that file alone.
pub open spec fn file_fingerprints(
    name: Seq<char>,
    hunks: Seq<HunkModel>,
    commit: Seq<u8>,
    repo: Seq<char>,
) -> Seq<FingerprintView> {
    winnow_commit(seq![(name, hunks)], commit, repo)
}

proof fn lemma_file_fingerprints_unfold(name: Seq<char>, hunks: Seq<HunkModel>, commit: Seq<u8>, repo: Seq<char>)
    ensures
        file_fingerprints(name, hunks, commit, repo) == fingerprints_of(
            with_file(file_hashes((name, hunks)), name),
            commit,
            repo,
        ),
{
    let g = |f: FileModel| with_file(file_hashes(f), f.0);
    let fs = seq![(name, hunks)];
    assert(fs.map_values(g) =~= seq![g((name, hunks))]);
    seq![g((name, hunks))].lemma_flatten_one_element();
}

/// The fingerprints of a file are those of its hunks, hunk after hunk: a
/// file whose hunks are `hs1` and then `hs2` gives the fingerprints of `hs1`
/// followed by those of `hs2`, and a file without hunks gives none.
pub proof fn lemma_file_fingerprints_concat(
    name: Seq<char>,
    hs1: Seq<HunkModel>,
    hs2: Seq<HunkModel>,
    commit: Seq<u8>,
    repo: Seq<char>,
)
    ensures
        file_fingerprints(name, hs1 + hs2, commit, repo) == file_fingerprints(name, hs1, commit, repo)
            + file_fingerprints(name, hs2, commit, repo),
        file_fingerprints(name, Seq::empty(), commit, repo) == Seq::<FingerprintView>::empty(),
{
    lemma_file_fingerprints_unfold(name, hs1 + hs2, commit, repo);
    lemma_file_fingerprints_unfold(name, hs1, commit, repo);
    lemma_file_fingerprints_unfold(name, hs2, commit, repo);
    lemma_file_fingerprints_unfold(name, Seq::empty(), commit, repo);
    let h = |x: HunkModel| hunk_hashes(x);
    assert((hs1 + hs2).map_values(h) =~= hs1.map_values(h) + hs2.map_values(h));
    vstd::seq_lib::lemma_flatten_concat(hs1.map_values(h), hs2.map_values(h));
    assert(file_fingerprints(name, hs1 + hs2, commit, repo) =~= file_fingerprints(name, hs1, commit, repo)
        + file_fingerprints(name, hs2, commit, repo));
    assert(Seq::<HunkModel>::empty().map_values(h) =~= Seq::<Seq<(u64, usize)>>::empty());
    assert(file_fingerprints(name, Seq::empty(), commit, repo) =~= Seq::<FingerprintView>::empty());
}

/// The fingerprints of a hunk are those of its lines, line after line: a
/// hunk whose lines are `ls1` and then `ls2` gives (in a file of its own) the
/// fingerprints of `ls1` followed by those of `ls2`.
pub proof fn lemma_hunk_fingerprints_concat(
    name: Seq<char>,
    ls1: HunkModel,
    ls2: HunkModel,
    commit: Seq<u8>,
    repo: Seq<char>,
)
    ensures
        file_fingerprints(name, seq![ls1 + ls2], commit, repo) == file_fingerprints(
            name,
            seq![ls1],
            commit,
            repo,
        ) + file_fingerprints(name, seq![ls2], commit, repo),
{
    broadcast use Seq::filter_distributes_over_add;

    lemma_file_fingerprints_unfold(name, seq![ls1 + ls2], commit, repo);
    lemma_file_fingerprints_unfold(name, seq![ls1], commit, repo);
    lemma_file_fingerprints_unfold(name, seq![ls2], commit, repo);
    let h = |x: HunkModel| hunk_hashes(x);
    assert(seq![ls1 + ls2].map_values(h) =~= seq![hunk_hashes(ls1 + ls2)]);
    assert(seq![ls1].map_values(h) =~= seq![hunk_hashes(ls1)]);
    assert(seq![ls2].map_values(h) =~= seq![hunk_hashes(ls2)]);
    seq![hunk_hashes(ls1 + ls2)].lemma_flatten_one_element();
    seq![hunk_hashes(ls1)].lemma_flatten_one_element();
    seq![hunk_hashes(ls2)].lemma_flatten_one_element();
    let f = |l: LineModel| line_hashes(l);
    let a = ls1.filter(added_line());
    let b = ls2.filter(added_line());
    assert((a + b).map_values(f) =~= a.map_values(f) + b.map_values(f));
    vstd::seq_lib::lemma_flatten_concat(a.map_values(f), b.map_values(f));
    assert(file_fingerprints(name, seq![ls1 + ls2], commit, repo) =~= file_fingerprints(
        name,
        seq![ls1],
        commit,
        repo,
    ) + file_fingerprints(name, seq![ls2], commit, repo));
}

/// The fingerprints of a single line: an added line gives one fingerprint per
/// hash that winnowing selects on its text, each located at the file, the
/// line's number, the commit and the repository; any other line gives none.
pub proof fn lemma_line_fingerprints(name: Seq<char>, l: LineModel, commit: Seq<u8>, repo: Seq<char>)
    ensures
        file_fingerprints(name, seq![seq![l]], commit, repo) == (if l.2 == seq!['+'] {
            winnow_spec(l.0, LINE_WINDOW as nat).map_values(
                |h: u64| (h, (repo, commit, name, l.1->0)),
            )
        } else {
            Seq::empty()
        }),
{
    reveal(Seq::filter);
    lemma_file_fingerprints_unfold(name, seq![seq![l]], commit, repo);
    let h = |x: HunkModel| hunk_hashes(x);
    assert(seq![seq![l]].map_values(h) =~= seq![hunk_hashes(seq![l])]);
    seq![hunk_hashes(seq![l])].lemma_flatten_one_element();
    let f = |x: LineModel| line_hashes(x);
    assert(Seq::<LineModel>::empty().push(l) =~= seq![l]);
    lemma_filter_push(Seq::<LineModel>::empty(), l, added_line());
    assert(Seq::<LineModel>::empty().filter(added_line()) =~= Seq::<LineModel>::empty());
    if l.2 == seq!['+'] {
        assert(seq![l].filter(added_line()) =~= seq![l]);
        assert(seq![l].map_values(f) =~= seq![line_hashes(l)]);
        seq![line_hashes(l)].lemma_flatten_one_element();
    } else {
        assert(seq![l].filter(added_line()) =~= Seq::<LineModel>::empty());
        assert(Seq::<LineModel>::empty().map_values(f) =~= Seq::<Seq<(u64, usize)>>::empty());
    }
    assert(file_fingerprints(name, seq![seq![l]], commit, repo) =~= (if l.2 == seq!['+'] {
        winnow_spec(l.0, LINE_WINDOW as nat).map_values(|h: u64| (h, (repo, commit, name, l.1->0)))
    } else {
        Seq::empty()
    }));
}

} // verus!
