//! The parts of a unified diff that winnowing reads: for every patched file
//! its target name and, hunk by hunk, the lines of the target side.

use vstd::prelude::*;

use crate::text::{chars_of, lines, lines_spec};

verus! {

/// A line of the target side of a hunk (an added or a context line).
#[derive(Debug, Clone, PartialEq, Eq)]
pub struct DiffLine {
    /// The line's text, without its leading `+` or ` `.
    pub value: String,
    /// The line's number in the target file.
    pub target_line_no: Option<usize>,
    /// `+` for an added line, ` ` for a context line.
    pub line_type: String,
}

/// A hunk, reduced to the lines of its target side, in order.
#[derive(Debug, Clone, PartialEq, Eq)]
pub struct DiffHunk {
    pub target_lines: Vec<DiffLine>,
}

/// A patched file: its target name and its hunks, in order.
#[derive(Debug, Clone, PartialEq, Eq)]
pub struct DiffFile {
    pub target_file: String,
    pub hunks: Vec<DiffHunk>,
}

/// A target line as plain values: its text, its target line number and its
/// line type.
pub type LineModel = (Seq<char>, Option<usize>, Seq<char>);

/// A hunk as plain values: its target lines.
pub type HunkModel = Seq<LineModel>;

/// A patched file as plain values: its target name and its hunks.
pub type FileModel = (Seq<char>, Seq<HunkModel>);

pub open spec fn line_model(l: DiffLine) -> LineModel {
    (l.value@, l.target_line_no, l.line_type@)
}

pub open spec fn hunk_model(h: DiffHunk) -> HunkModel {
    h.target_lines@.map_values(|l: DiffLine| line_model(l))
}

pub open spec fn file_model(f: DiffFile) -> FileModel {
    (f.target_file@, f.hunks@.map_values(|h: DiffHunk| hunk_model(h)))
}

pub open spec fn files_model(fs: Seq<DiffFile>) -> Seq<FileModel> {
    fs.map_values(|f: DiffFile| file_model(f))
}

/// Every target line of every hunk of every file carries a line number.
pub open spec fn lines_numbered(fs: Seq<FileModel>) -> bool {
    forall|i: int, j: int, k: int|
        0 <= i < fs.len() && 0 <= j < fs[i].1.len() && 0 <= k < fs[i].1[j].len()
            ==> (#[trigger] fs[i].1[j][k]).1 is Some
}

/// Every target line is an added line (`+`) or a context line (` `).
pub open spec fn target_line_types(fs: Seq<FileModel>) -> bool {
    forall|i: int, j: int, k: int|
        0 <= i < fs.len() && 0 <= j < fs[i].1.len() && 0 <= k < fs[i].1[j].len() ==> {
            let t = (#[trigger] fs[i].1[j][k]).2;
            t == seq!['+'] || t == seq![' ']
        }
}

/// What the `unidiff` crate makes of a text: for every file that
/// `PatchSet::parse` finds, its `target_file` and, for each of its hunks,
/// `Hunk::target_lines` as (value, target line number); or, where `parse`
/// fails, the `Debug` text of its `unidiff::Error`.
pub uninterp spec fn unidiff_target_lines(text: Seq<char>) -> Result<Seq<FileModel>, Seq<char>>;

/// Parses `text` with `unidiff::PatchSet::parse` and copies out, for every
/// patched file, its target name and the target lines of its hunks.
///
/// The contract names the outcome `unidiff_target_lines(text)`. It also
/// states what `PatchedFile::parse_hunk` and `Hunk::target_lines` show: every
/// line that `target_lines` keeps is an added or a context line and has a
/// target line number.
/// `parse` panics on a `+++` header that it reaches before any `---` header,
/// and on hunk-header numbers that are not ASCII digits or overflow `usize`;
/// `requires` admits only the texts of `diff_parse_total`, which follows
/// `parse` line by line and leaves those out (and, while a file is open, a
/// line that only may be a hunk header).
#[verifier::external_body]
pub(crate) fn parse_diff(text: &str) -> (r: Result<Vec<DiffFile>, String>)
    requires
        diff_parse_total(text@),
    ensures
        match r {
            Ok(files) => unidiff_target_lines(text@) == Ok::<Seq<FileModel>, Seq<char>>(
                files_model(files@),
            ),
            Err(m) => unidiff_target_lines(text@) == Err::<Seq<FileModel>, Seq<char>>(m@),
        },
        r matches Ok(files) ==> lines_numbered(files_model(files@)),
        r matches Ok(files) ==> target_line_types(files_model(files@)),
{
    let mut set = unidiff::PatchSet::new();
    match set.parse(text) {
        Ok(()) => Ok(set.into_iter().map(|f| DiffFile {
            target_file: f.target_file.clone(),
            hunks: f.hunks().iter().map(|h| DiffHunk {
                target_lines: h.target_lines().into_iter().map(|l| DiffLine {
                    value: l.value,
                    target_line_no: l.target_line_no,
                    line_type: l.line_type,
                }).collect(),
            }).collect(),
        }).collect()),
        Err(e) => Err(format!("{:?}", e)),
    }
}

// ---------------------------------------------------------------------------
// The texts that `unidiff` reads without panicking
// ---------------------------------------------------------------------------
/// Whether `l` begins with `p`.
pub open spec fn starts_with(l: Seq<char>, p: Seq<char>) -> bool {
    p.len() <= l.len() && l.take(p.len() as int) == p
}

/// A line that `unidiff` takes for a source file header (`--- name`).
pub open spec fn is_source_header(l: Seq<char>) -> bool {
    starts_with(l, seq!['-', '-', '-', ' ']) && l.len() > 4 && l[4] != '\t'
}

/// A line that `unidiff` takes for a target file header (`+++ name`).
pub open spec fn is_target_header(l: Seq<char>) -> bool {
    starts_with(l, seq!['+', '+', '+', ' ']) && l.len() > 4 && l[4] != '\t'
}

/// A line that may be a hunk header: it begins with `@@ -`.
pub open spec fn is_hunk_start(l: Seq<char>) -> bool {
    starts_with(l, seq!['@', '@', ' ', '-'])
}

pub open spec fn is_digit(c: char) -> bool {
    '0' <= c <= '9'
}

/// The number of ASCII digits that begin `s`.
pub open spec fn digits_len(s: Seq<char>) -> nat
    decreases s.len(),
{
    if s.len() == 0 || !is_digit(s[0]) {
        0
    } else {
        1 + digits_len(s.drop_first())
    }
}

/// The value of a run of ASCII digits.
pub open spec fn digits_value(s: Seq<char>) -> nat
    decreases s.len(),
{
    if s.len() == 0 {
        0
    } else {
        digits_value(s.drop_last()) * 10 + (s.last() as int - '0' as int) as nat
    }
}

/// The decimal number (value, number of digits) that begins `s`, if any.
pub open spec fn number_at(s: Seq<char>) -> Option<(nat, nat)> {
    if digits_len(s) == 0 {
        None
    } else {
        Some((digits_value(s.take(digits_len(s) as int)), digits_len(s)))
    }
}

/// An optional `,count` at the start of `s`: (count, characters used); the
/// count is 1 when absent.
pub open spec fn optional_count(s: Seq<char>) -> (nat, nat) {
    if s.len() > 0 && s[0] == ',' {
        match number_at(s.skip(1)) {
            Some((v, k)) => (v, k + 1),
            None => (1, 0),
        }
    } else {
        (1, 0)
    }
}

/// The target half ` +c[,d] @@` of a hunk header, at the start of `s`.
pub open spec fn target_numbers(s: Seq<char>) -> Option<(nat, nat)> {
    if !starts_with(s, seq![' ', '+']) {
        None
    } else {
        let r = s.skip(2);
        match number_at(r) {
            None => None,
            Some((c, kc)) => {
                let (d, kd) = optional_count(r.skip(kc as int));
                if starts_with(r.skip(kc as int).skip(kd as int), seq![' ', '@', '@']) {
                    Some((c, d))
                } else {
                    None
                }
            },
        }
    }
}

/// The numbers of a hunk header `@@ -a[,b] +c[,d] @@...` written with ASCII
/// digits.
pub open spec fn hunk_numbers(l: Seq<char>) -> Option<(nat, nat, nat, nat)> {
    if !is_hunk_start(l) {
        None
    } else {
        let r = l.skip(4);
        match number_at(r) {
            None => None,
            Some((a, ka)) => {
                let (b, kb) = optional_count(r.skip(ka as int));
                match target_numbers(r.skip(ka as int).skip(kb as int)) {
                    Some((c, d)) => Some((a, b, c, d)),
                    None => None,
                }
            },
        }
    }
}

/// The numbers of a hunk header when each fits in `usize`, so that
/// `str::parse::<usize>` reads them.
pub open spec fn hunk_header_numbers(l: Seq<char>) -> Option<(nat, nat, nat, nat)> {
    match hunk_numbers(l) {
        Some((a, b, c, d)) => if a <= usize::MAX && b <= usize::MAX && c <= usize::MAX && d
            <= usize::MAX {
            Some((a, b, c, d))
        } else {
            None
        },
        None => None,
    }
}

/// A line that `unidiff`'s hunk-header pattern `^@@ -\d+...` cannot match:
/// it does not begin with `@@ -`, or no digit follows (an ASCII character
/// that is no digit is no Unicode digit either).
pub open spec fn never_hunk_header(l: Seq<char>) -> bool {
    !is_hunk_start(l) || l.len() == 4 || (l[4] < '\u{80}' && !is_digit(l[4]))
}

/// The source and target line counters after one line of a hunk body, as
/// `PatchedFile::parse_hunk` moves them: a removed line moves the source, an
/// added line the target, a `\` line neither, and any other line (context)
/// both.
pub open spec fn line_step(l: Seq<char>, src: nat, tgt: nat) -> (nat, nat) {
    if l.len() > 0 && l[0] == '-' {
        (src + 1, tgt)
    } else if l.len() > 0 && l[0] == '+' {
        (src, tgt + 1)
    } else if l.len() > 0 && l[0] == '\\' {
        (src, tgt)
    } else {
        (src + 1, tgt + 1)
    }
}

/// How many lines `parse_hunk` takes as the body of a hunk: lines are taken
/// until both counters reach their expected ends (`send`, `tend`), or the
/// lines run out.
pub open spec fn hunk_body_len(body: Seq<Seq<char>>, src: nat, tgt: nat, send: nat, tend: nat) -> nat
    decreases body.len(),
{
    if body.len() == 0 {
        0
    } else {
        let (s2, t2) = line_step(body[0], src, tgt);
        if s2 >= send && t2 >= tend {
            1
        } else {
            1 + hunk_body_len(body.drop_first(), s2, t2, send, tend)
        }
    }
}

/// A hunk body is no longer than what is left.
pub proof fn lemma_hunk_body_len_bound(body: Seq<Seq<char>>, src: nat, tgt: nat, send: nat, tend: nat)
    ensures
        hunk_body_len(body, src, tgt, send, tend) <= body.len(),
    decreases body.len(),
{
    if body.len() > 0 {
        let (s2, t2) = line_step(body[0], src, tgt);
        lemma_hunk_body_len_bound(body.drop_first(), s2, t2, send, tend);
    }
}

/// Whether `PatchSet::parse`, having read the lines before `i` (a source
/// header seen: `have_source`; a file open: `have_file`), reads on without
/// panicking, as far as this library can tell. It follows `parse` line by
/// line: a source header opens a new source; a target header ends the parse
/// with an error when a file is open, panics when no source header came
/// before, and else opens a file; a hunk header ends the parse with an error
/// when no file is open, and else its body is skipped; its numbers must fit
/// in `usize` together with the number of lines. A line that may or may not
/// be a hunk header (one not written in ASCII digits) is not admitted while
/// a file is open.
pub open spec fn parse_safe_from(ls: Seq<Seq<char>>, i: int, have_source: bool, have_file: bool) -> bool
    decreases ls.len() - i,
{
    if i < 0 || i >= ls.len() {
        true
    } else {
        let l = ls[i];
        if is_source_header(l) {
            parse_safe_from(ls, i + 1, true, false)
        } else if is_target_header(l) {
            if have_file {
                true
            } else if !have_source {
                false
            } else {
                parse_safe_from(ls, i + 1, true, true)
            }
        } else if never_hunk_header(l) {
            parse_safe_from(ls, i + 1, have_source, have_file)
        } else {
            match hunk_header_numbers(l) {
                Some((a, b, c, d)) => if !have_file {
                    true
                } else if a + b <= usize::MAX && c + d <= usize::MAX && a + ls.len() <= usize::MAX
                    && c + ls.len() <= usize::MAX {
                    proof {
                        lemma_hunk_body_len_bound(ls.skip(i + 1), a, c, a + b, c + d);
                    }
                    parse_safe_from(
                        ls,
                        i + 1 + hunk_body_len(ls.skip(i + 1), a, c, a + b, c + d),
                        have_source,
                        true,
                    )
                } else {
                    false
                },
                None => if have_file {
                    false
                } else {
                    parse_safe_from(ls, i + 1, have_source, have_file)
                },
            }
        }
    }
}

/// The texts on which `unidiff`'s `PatchSet::parse` does not panic, as far
/// as this library states it: `parse_safe_from` from the first line.
pub open spec fn diff_parse_total(text: Seq<char>) -> bool {
    parse_safe_from(lines_spec(text), 0, false, false)
}

/// Whether `l[p..]` begins with `pat`.
fn starts_with_at(l: &[char], p: usize, pat: &[char]) -> (r: bool)
    requires
        p <= l@.len(),
    ensures
        r == starts_with(l@.skip(p as int), pat@),
{
    let n = pat.len();
    let len = l.len();
    if len - p < n {
        return false;
    }
    for k in 0..n
        invariant
            n == pat@.len(),
            len == l@.len(),
            p + n <= len,
            forall|q: int| 0 <= q < k ==> l@[p + q] == pat@[q],
    {
        if l[p + k] != pat[k] {
            assert(l@.skip(p as int).take(n as int)[k as int] == l@[p + k]);
            return false;
        }
    }
    assert(l@.skip(p as int).take(n as int) =~= pat@);
    true
}

proof fn lemma_digits(s: Seq<char>, m: int)
    requires
        0 <= m <= s.len(),
        forall|k: int| 0 <= k < m ==> is_digit(#[trigger] s[k]),
        m == s.len() || !is_digit(s[m]),
    ensures
        digits_len(s) == m,
    decreases m,
{
    if m > 0 {
        assert forall|k: int| 0 <= k < m - 1 implies is_digit(#[trigger] s.drop_first()[k]) by {
            assert(s.drop_first()[k] == s[k + 1]);
        }
        assert(is_digit(s[0]));
        lemma_digits(s.drop_first(), m - 1);
    }
}

/// The number that begins `l[p..]`: `None` when there is none or when its
/// value does not fit in `usize`.
fn number_at_exec(l: &[char], p: usize) -> (r: Option<(usize, usize)>)
    requires
        p <= l@.len(),
    ensures
        match r {
            Some((v, k)) => number_at(l@.skip(p as int)) == Some((v as nat, k as nat)),
            None => match number_at(l@.skip(p as int)) {
                None => true,
                Some((v, k)) => v > usize::MAX,
            },
        },
        r matches Some((v, k)) ==> p + k <= l@.len(),
{
    let ghost s = l@.skip(p as int);
    let len = l.len();
    let mut j: usize = p;
    let mut v: usize = 0;
    let mut overflow = false;
    assert(l@.subrange(p as int, p as int) =~= Seq::<char>::empty());
    while j < len && '0' <= l[j] && l[j] <= '9'
        invariant
            len == l@.len(),
            p <= j <= len,
            s == l@.skip(p as int),
            forall|k: int| p <= k < j ==> is_digit(#[trigger] l@[k]),
            !overflow ==> v == digits_value(l@.subrange(p as int, j as int)),
            overflow ==> digits_value(l@.subrange(p as int, j as int)) > usize::MAX,
        decreases len - j,
    {
        let d = ((l[j] as u32) - ('0' as u32)) as usize;
        let ghost prev = l@.subrange(p as int, j as int);
        let ghost next = l@.subrange(p as int, j + 1);
        assert(next.drop_last() =~= prev);
        assert(next.last() == l@[j as int]);
        assert(digits_value(next) == digits_value(prev) * 10 + d);
        if !overflow {
            if v > (usize::MAX - d) / 10 {
                overflow = true;
                assert(v * 10 + d > usize::MAX) by (nonlinear_arith)
                    requires
                        v > (usize::MAX - d) / 10,
                        d <= 9,
                ;
            } else {
                assert(v * 10 + d <= usize::MAX) by (nonlinear_arith)
                    requires
                        v <= (usize::MAX - d) / 10,
                        d <= 9,
                ;
                v = v * 10 + d;
            }
        } else {
            assert(digits_value(prev) * 10 + d >= digits_value(prev)) by (nonlinear_arith);
        }
        j = j + 1;
    }
    proof {
        assert forall|k: int| 0 <= k < j - p implies is_digit(#[trigger] s[k]) by {
            assert(s[k] == l@[p + k]);
        }
        if j < len {
            assert(s[j - p] == l@[j as int]);
        }
        lemma_digits(s, j - p);
        assert(s.take(j - p) =~= l@.subrange(p as int, j as int));
    }
    if j == p || overflow {
        None
    } else {
        Some((v, j - p))
    }
}

/// An optional `,count` at `l[p..]`: (count, characters used), or `None`
/// when the count does not fit in `usize`.
fn optional_count_exec(l: &[char], p: usize) -> (r: Option<(usize, usize)>)
    requires
        p <= l@.len(),
    ensures
        match r {
            Some((v, k)) => optional_count(l@.skip(p as int)) == (v as nat, k as nat),
            None => optional_count(l@.skip(p as int)).0 > usize::MAX,
        },
        r matches Some((v, k)) ==> p + k <= l@.len(),
{
    let ghost s = l@.skip(p as int);
    if p < l.len() && l[p] == ',' {
        assert(s[0] == ',');
        assert(s.skip(1) =~= l@.skip(p + 1));
        match number_at_exec(l, p + 1) {
            Some((v, k)) => Some((v, k + 1)),
            None => {
                if p + 1 <= l.len() && number_at_exec_is_some(l, p + 1) {
                    None
                } else {
                    Some((1, 0))
                }
            },
        }
    } else {
        Some((1, 0))
    }
}

/// Whether a number begins `l[p..]`.
fn number_at_exec_is_some(l: &[char], p: usize) -> (r: bool)
    requires
        p <= l@.len(),
    ensures
        r == (number_at(l@.skip(p as int)) is Some),
{
    let ghost s = l@.skip(p as int);
    if p < l.len() && '0' <= l[p] && l[p] <= '9' {
        assert(s[0] == l@[p as int]);
        true
    } else {
        false
    }
}

/// The target half of a hunk header at `l[p..]`, or `None` when it is not
/// well formed or one of its numbers does not fit in `usize`.
fn target_numbers_exec(l: &[char], p: usize) -> (r: Option<(usize, usize)>)
    requires
        p <= l@.len(),
    ensures
        match r {
            Some((c, d)) => target_numbers(l@.skip(p as int)) == Some((c as nat, d as nat)),
            None => match target_numbers(l@.skip(p as int)) {
                None => true,
                Some((c, d)) => c > usize::MAX || d > usize::MAX,
            },
        },
{
    let ghost s = l@.skip(p as int);
    let len = l.len();
    if !starts_with_at(l, p, &[' ', '+']) {
        return None;
    }
    assert(p + 2 <= len);
    let p3 = p + 2;
    assert(s.skip(2) =~= l@.skip(p3 as int));
    let (c, kc) = match number_at_exec(l, p3) {
        Some(x) => x,
        None => {
            return None;
        },
    };
    let p4 = p3 + kc;
    assert(s.skip(2).skip(kc as int) =~= l@.skip(p4 as int));
    let (d, kd) = match optional_count_exec(l, p4) {
        Some(x) => x,
        None => {
            return None;
        },
    };
    let p5 = p4 + kd;
    assert(l@.skip(p4 as int).skip(kd as int) =~= l@.skip(p5 as int));
    if !starts_with_at(l, p5, &[' ', '@', '@']) {
        return None;
    }
    Some((c, d))
}

/// The numbers of a hunk header, or `None` when the line is not a well-formed
/// hunk header or one of its numbers does not fit in `usize`.
fn hunk_numbers_exec(l: &[char]) -> (r: Option<(usize, usize, usize, usize)>)
    ensures
        match r {
            Some((a, b, c, d)) => hunk_numbers(l@) == Some((a as nat, b as nat, c as nat, d as nat)),
            None => match hunk_numbers(l@) {
                None => true,
                Some((a, b, c, d)) => a > usize::MAX || b > usize::MAX || c > usize::MAX || d
                    > usize::MAX,
            },
        },
{
    let len = l.len();
    assert(l@.skip(0) =~= l@);
    if !starts_with_at(l, 0, &['@', '@', ' ', '-']) {
        return None;
    }
    let p0: usize = 4;
    let (a, ka) = match number_at_exec(l, p0) {
        Some(x) => x,
        None => {
            return None;
        },
    };
    let p1 = p0 + ka;
    assert(l@.skip(4).skip(ka as int) =~= l@.skip(p1 as int));
    let (b, kb) = match optional_count_exec(l, p1) {
        Some(x) => x,
        None => {
            return None;
        },
    };
    let p2 = p1 + kb;
    assert(l@.skip(p1 as int).skip(kb as int) =~= l@.skip(p2 as int));
    match target_numbers_exec(l, p2) {
        Some((c, d)) => Some((a, b, c, d)),
        None => None,
    }
}

// ---------------------------------------------------------------------------
// Which diffs are admitted
// ---------------------------------------------------------------------------
/// A line of a hunk body that `diff` writes: removed (`-`), added (`+`) or
/// context (` `).
pub open spec fn body_line(l: Seq<char>) -> bool {
    l.len() > 0 && (l[0] == '-' || l[0] == '+' || l[0] == ' ')
}

/// The number of body lines that belong to the source side (removed and
/// context lines).
pub open spec fn source_count(body: Seq<Seq<char>>) -> nat
    decreases body.len(),
{
    if body.len() == 0 {
        0
    } else {
        (if body[0][0] != '+' { 1nat } else { 0nat }) + source_count(body.drop_first())
    }
}

/// The number of body lines that belong to the target side (added and
/// context lines).
pub open spec fn target_count(body: Seq<Seq<char>>) -> nat
    decreases body.len(),
{
    if body.len() == 0 {
        0
    } else {
        (if body[0][0] != '-' { 1nat } else { 0nat }) + target_count(body.drop_first())
    }
}

/// A line outside any hunk that is no file header and no hunk header, such
/// as a line of a commit message.
pub open spec fn plain_piece(p: Seq<Seq<char>>) -> bool {
    p.len() == 1 && !is_source_header(p[0]) && !is_target_header(p[0]) && never_hunk_header(p[0])
}

/// The two file headers of a patched file: `--- name` and `+++ name`.
pub open spec fn file_piece(p: Seq<Seq<char>>) -> bool {
    p.len() == 2 && is_source_header(p[0]) && is_target_header(p[1])
}

/// A hunk: a header `@@ -a,b +c,d @@` in ASCII digits followed by a non-empty
/// body of removed, added and context lines that holds `b` source lines and
/// `d` target lines, its numbers small enough that counting `n` lines from
/// them stays within `usize`.
pub open spec fn hunk_piece(p: Seq<Seq<char>>, n: nat) -> bool {
    &&& p.len() >= 2
    &&& forall|k: int| 1 <= k < p.len() ==> body_line(#[trigger] p[k])
    &&& match hunk_numbers(p[0]) {
        Some((a, b, c, d)) => {
            &&& b == source_count(p.skip(1))
            &&& d == target_count(p.skip(1))
            &&& a + b + n <= usize::MAX
            &&& c + d + n <= usize::MAX
        },
        None => false,
    }
}

/// A unified diff assembled from pieces: plain lines, file headers and hunks,
/// every hunk coming after some file headers.
pub open spec fn diff_pieces(ps: Seq<Seq<Seq<char>>>) -> bool {
    &&& forall|j: int|
        0 <= j < ps.len() ==> plain_piece(#[trigger] ps[j]) || file_piece(ps[j]) || hunk_piece(
            ps[j],
            ps.flatten().len(),
        )
    &&& forall|j: int|
        0 <= j < ps.len() && hunk_piece(#[trigger] ps[j], ps.flatten().len()) ==> exists|i: int|
            0 <= i < j && file_piece(#[trigger] ps[i])
}

proof fn lemma_counts_step(body: Seq<Seq<char>>)
    requires
        body.len() > 0,
        forall|k: int| 0 <= k < body.len() ==> body_line(#[trigger] body[k]),
    ensures
        source_count(body.drop_first()) + target_count(body.drop_first()) + 1 <= source_count(body)
            + target_count(body),
        forall|k: int| 0 <= k < body.drop_first().len() ==> body_line(#[trigger] body.drop_first()[k]),
{
    assert(body_line(body[0]));
    assert forall|k: int| 0 <= k < body.drop_first().len() implies body_line(#[trigger] body.drop_first()[k]) by {
        assert(body.drop_first()[k] == body[k + 1]);
    }
}

proof fn lemma_counts_positive(body: Seq<Seq<char>>)
    requires
        body.len() > 0,
        forall|k: int| 0 <= k < body.len() ==> body_line(#[trigger] body[k]),
    ensures
        source_count(body) + target_count(body) >= 1,
{
    lemma_counts_step(body);
}

/// A hunk body whose counts match the header is taken whole by `parse_hunk`.
proof fn lemma_hunk_body_len_exact(
    body: Seq<Seq<char>>,
    rest: Seq<Seq<char>>,
    src: nat,
    tgt: nat,
    send: nat,
    tend: nat,
)
    requires
        body.len() > 0,
        forall|k: int| 0 <= k < body.len() ==> body_line(#[trigger] body[k]),
        src + source_count(body) == send,
        tgt + target_count(body) == tend,
    ensures
        hunk_body_len(body + rest, src, tgt, send, tend) == body.len(),
    decreases body.len(),
{
    let all = body + rest;
    assert(all[0] == body[0]);
    assert(body_line(body[0]));
    let (s2, t2) = line_step(body[0], src, tgt);
    lemma_counts_step(body);
    let tail = body.drop_first();
    assert(s2 == src + (if body[0][0] != '+' { 1nat } else { 0nat }));
    assert(t2 == tgt + (if body[0][0] != '-' { 1nat } else { 0nat }));
    if tail.len() > 0 {
        lemma_counts_positive(tail);
        assert(all.drop_first() =~= tail + rest);
        lemma_hunk_body_len_exact(tail, rest, s2, t2, send, tend);
    }
}

proof fn lemma_hunk_start_not_header(l: Seq<char>)
    requires
        hunk_numbers(l) is Some,
    ensures
        !is_source_header(l),
        !is_target_header(l),
        !never_hunk_header(l),
{
    let r = l.skip(4);
    assert(digits_len(r) > 0);
    assert(r[0] == l[4]);
    assert(l.take(4)[0] == '@');
}

proof fn lemma_pieces_safe(ls: Seq<Seq<char>>, i: int, ps: Seq<Seq<Seq<char>>>, n: nat, hs: bool, hf: bool)
    requires
        0 <= i <= ls.len(),
        n == ls.len(),
        ls.skip(i) == ps.flatten(),
        forall|j: int|
            0 <= j < ps.len() ==> plain_piece(#[trigger] ps[j]) || file_piece(ps[j]) || hunk_piece(
                ps[j],
                n,
            ),
        forall|j: int|
            0 <= j < ps.len() && hunk_piece(#[trigger] ps[j], n) ==> hf || exists|i: int|
                0 <= i < j && file_piece(#[trigger] ps[i]),
        hf ==> hs,
    ensures
        parse_safe_from(ls, i, hs, hf),
    decreases ps.len(),
{
    if ps.len() == 0 {
        assert(ls.skip(i).len() == 0);
    } else {
        let p = ps[0];
        let rest = ps.drop_first();
        assert(ps.flatten() == p + rest.flatten());
        assert(p.len() >= 1) by {
            assert(plain_piece(ps[0]) || file_piece(ps[0]) || hunk_piece(ps[0], n));
        }
        assert(ls[i] == p[0]) by {
            assert(ls.skip(i)[0] == ls[i]);
        }
        assert(ls.skip(i + p.len()) =~= rest.flatten()) by {
            assert forall|k: int| 0 <= k < rest.flatten().len() implies ls.skip(i + p.len())[k]
                == rest.flatten()[k] by {
                assert(ls.skip(i)[p.len() + k] == (p + rest.flatten())[p.len() + k]);
            }
        }
        assert forall|j: int|
            0 <= j < rest.len() implies plain_piece(#[trigger] rest[j]) || file_piece(rest[j])
            || hunk_piece(rest[j], n) by {
            assert(rest[j] == ps[j + 1]);
        }
        if plain_piece(p) {
            assert forall|j: int|
                0 <= j < rest.len() && hunk_piece(#[trigger] rest[j], n) implies hf || exists|k: int|
                0 <= k < j && file_piece(#[trigger] rest[k]) by {
                assert(rest[j] == ps[j + 1]);
                if !hf {
                    let k = choose|k: int| 0 <= k < j + 1 && file_piece(#[trigger] ps[k]);
                    assert(k != 0);
                    assert(rest[k - 1] == ps[k]);
                }
            }
            lemma_pieces_safe(ls, i + 1, rest, n, hs, hf);
        } else if file_piece(p) {
            assert(ls[i + 1] == p[1]) by {
                assert(ls.skip(i)[1] == ls[i + 1]);
            }
            assert forall|j: int|
                0 <= j < rest.len() && hunk_piece(#[trigger] rest[j], n) implies true || exists|k: int|
                0 <= k < j && file_piece(#[trigger] rest[k]) by {}
            lemma_pieces_safe(ls, i + 2, rest, n, true, true);
            assert(parse_safe_from(ls, i + 1, true, false));
        } else {
            assert(hunk_piece(ps[0], n));
            assert(hf) by {
                if !hf {
                    let k = choose|k: int| 0 <= k < 0 && file_piece(#[trigger] ps[k]);
                }
            }
            let (a, b, c, d) = hunk_numbers(p[0])->0;
            lemma_hunk_start_not_header(p[0]);
            let body = p.skip(1);
            assert forall|k: int| 0 <= k < body.len() implies body_line(#[trigger] body[k]) by {
                assert(body[k] == p[k + 1]);
            }
            assert(ls.skip(i + 1) =~= body + rest.flatten()) by {
                assert forall|k: int| 0 <= k < body.len() + rest.flatten().len() implies ls.skip(i + 1)[k]
                    == (body + rest.flatten())[k] by {
                    assert(ls.skip(i)[1 + k] == (p + rest.flatten())[1 + k]);
                }
            }
            lemma_hunk_body_len_exact(body, rest.flatten(), a, c, a + b, c + d);
            assert forall|j: int|
                0 <= j < rest.len() && hunk_piece(#[trigger] rest[j], n) implies true || exists|k: int|
                0 <= k < j && file_piece(#[trigger] rest[k]) by {}
            lemma_pieces_safe(ls, i + p.len(), rest, n, hs, true);
        }
    }
}

/// Every unified diff assembled from plain lines, file headers and hunks
/// whose bodies match their headers, every hunk after some file headers, is
/// admitted, whatever the number of files: `parse` reads it without
/// panicking.
pub proof fn lemma_diff_pieces_admitted(text: Seq<char>, ps: Seq<Seq<Seq<char>>>)
    requires
        lines_spec(text) == ps.flatten(),
        diff_pieces(ps),
    ensures
        diff_parse_total(text),
{
    let ls = lines_spec(text);
    assert(ls.skip(0) =~= ls);
    lemma_pieces_safe(ls, 0, ps, ls.len(), false, false);
}

/// The characters of each line.
pub open spec fn line_views(ls: Seq<Vec<char>>) -> Seq<Seq<char>> {
    ls.map_values(|l: Vec<char>| l@)
}

/// `hunk_body_len` of the lines from `start`, counted with machine integers.
fn hunk_body_len_exec(
    ls: &Vec<Vec<char>>,
    start: usize,
    a: usize,
    c: usize,
    send: usize,
    tend: usize,
) -> (r: usize)
    requires
        start <= ls@.len(),
        a + ls@.len() <= usize::MAX,
        c + ls@.len() <= usize::MAX,
    ensures
        r == hunk_body_len(line_views(ls@).skip(start as int), a as nat, c as nat, send as nat, tend as nat),
{
    let ghost lv = line_views(ls@);
    let ghost body0 = lv.skip(start as int);
    let n = ls.len();
    let mut k: usize = start;
    let mut src: usize = a;
    let mut tgt: usize = c;
    while k < n
        invariant
            n == ls@.len(),
            lv == line_views(ls@),
            body0 == lv.skip(start as int),
            start <= k <= n,
            a + n <= usize::MAX,
            c + n <= usize::MAX,
            src <= a + (k - start),
            tgt <= c + (k - start),
            hunk_body_len(body0, a as nat, c as nat, send as nat, tend as nat) == (k - start)
                + hunk_body_len(lv.skip(k as int), src as nat, tgt as nat, send as nat, tend as nat),
        decreases n - k,
    {
        let l = ls[k].as_slice();
        let ghost body = lv.skip(k as int);
        assert(body[0] == l@);
        assert(body.drop_first() =~= lv.skip(k + 1));
        if l.len() > 0 && l[0] == '-' {
            src = src + 1;
        } else if l.len() > 0 && l[0] == '+' {
            tgt = tgt + 1;
        } else if l.len() > 0 && l[0] == '\\' {
        } else {
            src = src + 1;
            tgt = tgt + 1;
        }
        k = k + 1;
        if src >= send && tgt >= tend {
            return k - start;
        }
    }
    assert(lv.skip(k as int).len() == 0);
    k - start
}

/// Whether `unidiff` can read `text` without panicking, in the terms of
/// `diff_parse_total`.
pub fn diff_parse_total_check(text: &str) -> (r: bool)
    ensures
        r == diff_parse_total(text@),
{
    let chars = chars_of(text);
    let ls = lines(chars.as_slice());
    let ghost lv = line_views(ls@);
    assert(lv == lines_spec(text@));
    let n = ls.len();
    let mut i: usize = 0;
    let mut have_source = false;
    let mut have_file = false;
    while i < n
        invariant
            n == ls@.len(),
            lv == line_views(ls@),
            lv.len() == n,
            i <= n,
            diff_parse_total(text@) == parse_safe_from(lv, i as int, have_source, have_file),
            lv == lines_spec(text@),
        decreases n - i,
    {
        let l = ls[i].as_slice();
        assert(lv[i as int] == l@);
        assert(l@.skip(0) =~= l@);
        let minus = starts_with_at(l, 0, &['-', '-', '-', ' ']) && l.len() > 4 && l[4] != '\t';
        assert(minus == is_source_header(lv[i as int]));
        let plus = starts_with_at(l, 0, &['+', '+', '+', ' ']) && l.len() > 4 && l[4] != '\t';
        assert(plus == is_target_header(lv[i as int]));
        if minus {
            have_source = true;
            have_file = false;
            i = i + 1;
        } else if plus {
            if have_file {
                return true;
            }
            if !have_source {
                return false;
            }
            have_file = true;
            i = i + 1;
        } else {
            let start = starts_with_at(l, 0, &['@', '@', ' ', '-']);
            assert(start == is_hunk_start(lv[i as int]));
            let never = !start || l.len() == 4 || (l[4] < '\u{80}' && !('0' <= l[4] && l[4] <= '9'));
            assert(never == never_hunk_header(lv[i as int]));
            if never {
                i = i + 1;
            } else {
                match hunk_numbers_exec(l) {
                    Some((a, b, c, d)) => {
                        if !have_file {
                            return true;
                        }
                        if a > usize::MAX - b || c > usize::MAX - d || a > usize::MAX - n || c
                            > usize::MAX - n {
                            return false;
                        }
                        let k = hunk_body_len_exec(&ls, i + 1, a, c, a + b, c + d);
                        proof {
                            lemma_hunk_body_len_bound(lv.skip(i + 1), a as nat, c as nat, (a + b) as nat, (c + d) as nat);
                        }
                        i = i + 1 + k;
                    },
                    None => {
                        if have_file {
                            return false;
                        }
                        i = i + 1;
                    },
                }
            }
        }
    }
    true
}

} // verus!
