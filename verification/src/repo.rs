//! Reading what `git` prints: the patch files that `git format-patch`
//! lists, and the object id that `git hash-object` prints.

use vstd::prelude::*;
use vstd::utf8::{decode_utf8, valid_utf8};

use crate::text::{chars_of, lines, lines_spec, string_from_chars, trim, trim_spec};

verus! {

/// Decodes bytes as UTF-8 with `String::from_utf8`, which fails exactly when
/// the bytes are not valid UTF-8 and otherwise holds the decoded characters.
#[verifier::external_body]
fn utf8_string(bytes: Vec<u8>) -> (r: Option<String>)
    ensures
        r is Some <==> valid_utf8(bytes@),
        r matches Some(s) ==> s@ == decode_utf8(bytes@),
{
    match String::from_utf8(bytes) {
        Ok(s) => Some(s),
        Err(_) => None,
    }
}

/// The path of a patch listed on `line`, under the repository directory
/// `name`.
pub open spec fn patch_path(name: Seq<char>, line: Seq<char>) -> Seq<char> {
    name + seq!['/'] + line
}

/// The paths of the patches that `git format-patch` lists on its standard
/// output (one file name per line), under the repository directory `name`;
/// `None` when the output is not UTF-8.
pub fn patch_paths(name: &str, git_stdout: Vec<u8>) -> (r: Option<Vec<String>>)
    ensures
        r is Some <==> valid_utf8(git_stdout@),
        r matches Some(paths) ==> paths@.map_values(|p: String| p@) == lines_spec(
            decode_utf8(git_stdout@),
        ).map_values(|l: Seq<char>| patch_path(name@, l)),
{
    let ghost bytes = git_stdout@;
    let text = match utf8_string(git_stdout) {
        Some(t) => t,
        None => {
            return None;
        },
    };
    let chars = chars_of(text.as_str());
    let ls = lines(chars.as_slice());
    let prefix = chars_of(name);
    let ghost want = lines_spec(decode_utf8(bytes)).map_values(|l: Seq<char>| patch_path(name@, l));
    let mut out: Vec<String> = Vec::new();
    let n = ls.len();
    assert(ls@.map_values(|l: Vec<char>| l@).len() == n);
    for i in 0..n
        invariant
            n == ls@.len(),
            ls@.map_values(|l: Vec<char>| l@) == lines_spec(decode_utf8(bytes)),
            prefix@ == name@,
            want == lines_spec(decode_utf8(bytes)).map_values(|l: Seq<char>| patch_path(name@, l)),
            out@.len() == i,
            forall|k: int| 0 <= k < i ==> (#[trigger] out@[k])@ == want[k],
    {
        let line = &ls[i];
        assert(ls@.map_values(|l: Vec<char>| l@)[i as int] == line@);
        let mut path: Vec<char> = Vec::new();
        for k in 0..prefix.len()
            invariant
                path@ == prefix@.take(k as int),
        {
            path.push(prefix[k]);
            assert(path@ =~= prefix@.take(k + 1));
        }
        path.push('/');
        for k in 0..line.len()
            invariant
                path@ == prefix@ + seq!['/'] + line@.take(k as int),
        {
            path.push(line[k]);
            assert(path@ =~= prefix@ + seq!['/'] + line@.take(k + 1));
        }
        assert(prefix@.take(prefix@.len() as int) =~= prefix@);
        assert(line@.take(line@.len() as int) =~= line@);
        out.push(string_from_chars(path.as_slice()));
    }
    assert(out@.map_values(|p: String| p@) =~= want);
    Some(out)
}

/// The object id that `git hash-object` prints: its standard output without
/// surrounding whitespace; `None` when the output is not UTF-8.
pub fn object_id(git_stdout: Vec<u8>) -> (r: Option<String>)
    ensures
        r is Some <==> valid_utf8(git_stdout@),
        r matches Some(s) ==> s@ == trim_spec(decode_utf8(git_stdout@)),
{
    let ghost bytes = git_stdout@;
    match utf8_string(git_stdout) {
        Some(t) => {
            let chars = chars_of(t.as_str());
            let trimmed = trim(chars.as_slice());
            Some(string_from_chars(trimmed.as_slice()))
        },
        None => None,
    }
}

} // verus!
