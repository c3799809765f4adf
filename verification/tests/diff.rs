use winnow::diff::{diff_parse_total_check, DiffFile, DiffHunk, DiffLine};
use winnow::winnowing::{
    commit_hash_word, fingerprints_of_patch, winnow, winnow_line, winnow_str, Fingerprint, HexError,
    Location, PatchError,
};

const PATCH: &str = "From 0123456789abcdef0123456789abcdef01234567 Mon Sep 17 00:00:00 2001
From: Someone <someone@example.com>
Subject: [PATCH] add file

---
 f.txt | 2 ++
 1 file changed

diff --git a/f.txt b/f.txt
new file mode 100644
index 0000000..9b710f3
--- /dev/null
+++ b/f.txt
@@ -0,0 +1,2 @@
+The quick brown fox jumps
+over the lazy dog
-- 
2.30.0
";

fn commit() -> [u8; 20] {
    [
        0x01, 0x23, 0x45, 0x67, 0x89, 0xab, 0xcd, 0xef, 0x01, 0x23, 0x45, 0x67, 0x89, 0xab, 0xcd,
        0xef, 0x01, 0x23, 0x45, 0x67,
    ]
}

fn patch_files() -> Vec<DiffFile> {
    vec![DiffFile {
        target_file: "b/f.txt".to_string(),
        hunks: vec![DiffHunk {
            target_lines: vec![
                DiffLine {
                    value: "The quick brown fox jumps".to_string(),
                    target_line_no: Some(1),
                    line_type: "+".to_string(),
                },
                DiffLine {
                    value: "over the lazy dog".to_string(),
                    target_line_no: Some(2),
                    line_type: "+".to_string(),
                },
            ],
        }],
    }]
}

#[test]
fn patch_is_read_as_its_target_lines() {
    assert_eq!(winnow(&patch_files(), commit(), "repo"), fingerprints_of_patch(PATCH, "repo").unwrap());
}

fn hunk_with_context() -> Vec<DiffFile> {
    vec![DiffFile {
        target_file: "b/g.txt".to_string(),
        hunks: vec![DiffHunk {
            target_lines: vec![
                DiffLine {
                    value: "the same words stay here".to_string(),
                    target_line_no: Some(3),
                    line_type: " ".to_string(),
                },
                DiffLine {
                    value: "brand new words come here".to_string(),
                    target_line_no: Some(4),
                    line_type: "+".to_string(),
                },
            ],
        }],
    }]
}

#[test]
fn only_added_lines_are_winnowed() {
    let text = "From beef x\n--- a/g.txt\n+++ b/g.txt\n@@ -3,2 +3,2 @@\n the same words stay here\n-the old words leave now\n+brand new words come here\n";
    let mut c = [0u8; 20];
    c[0] = 0xbe;
    c[1] = 0xef;
    let fps = fingerprints_of_patch(text, "r").unwrap();
    assert_eq!(fps, winnow(&hunk_with_context(), c, "r"));
    assert!(!fps.is_empty());
    assert!(fps.iter().all(|f| f.location.line == 4));
    assert!(fps.iter().all(|f| f.location.file == "b/g.txt"));
    let expected: Vec<u64> = winnow_str("brand new words come here", 10);
    assert_eq!(fps.iter().map(|f| f.hash).collect::<Vec<u64>>(), expected);
}

#[test]
fn hunk_without_added_lines_gives_no_fingerprints() {
    let text = "From beef x\n--- a/g.txt\n+++ b/g.txt\n@@ -3,2 +3,1 @@\n the same words stay here\n-the old words leave now\n";
    assert_eq!(fingerprints_of_patch(text, "r"), Ok(vec![]));
    let mut files = hunk_with_context();
    files[0].hunks[0].target_lines.pop();
    assert_eq!(winnow(&files, [0u8; 20], "r"), vec![]);
}

#[test]
fn unsupported_diffs_are_refused() {
    assert_eq!(fingerprints_of_patch("+++ b/y\n", "r"), Err(PatchError::UnsupportedDiff));
    assert_eq!(
        fingerprints_of_patch("x y\n--- a\n+++ b\n@@ -99999999999999999999999 +1 @@\n+z\n", "r"),
        Err(PatchError::UnsupportedDiff)
    );
    assert_eq!(
        fingerprints_of_patch("x y\n--- a\n+++ b\n@@ -1,18446744073709551615 +1 @@\n+z\n", "r"),
        Err(PatchError::UnsupportedDiff)
    );
    // a hunk header in Arabic-Indic digits while a file is open
    assert_eq!(
        fingerprints_of_patch("x y\n--- a\n+++ b\n@@ -\u{661} +1 @@\n+z\n", "r"),
        Err(PatchError::UnsupportedDiff)
    );
    // `@@ -` followed by no digit is never a hunk header
    assert!(diff_parse_total_check("@@ -x +1 @@\n"));
    assert!(diff_parse_total_check("--- a\n+++ b\n@@ -1,2 +3 @@ f\n"));
    assert!(diff_parse_total_check(""));
}

#[test]
fn diff_errors_are_reported() {
    match fingerprints_of_patch("From beef\n@@ -1 +1 @@\n+x\n", "r") {
        Err(PatchError::Diff(e)) => assert!(e.starts_with("UnexpectedHunk"), "{}", e),
        other => panic!("{:?}", other),
    }
}

#[test]
fn winnow_line_pairs_hashes_with_line_number() {
    let line = DiffLine {
        value: "The quick brown fox jumps".to_string(),
        target_line_no: Some(7),
        line_type: "+".to_string(),
    };
    let expected: Vec<(u64, usize)> =
        winnow_str("The quick brown fox jumps", 10).into_iter().map(|h| (h, 7)).collect();
    assert_eq!(expected.len(), 3);
    assert_eq!(winnow_line(&line), expected);
}

#[test]
fn commit_hash_is_second_word() {
    assert_eq!(
        commit_hash_word(PATCH),
        Some("0123456789abcdef0123456789abcdef01234567".to_string())
    );
    assert_eq!(commit_hash_word("From"), None);
}

#[test]
fn fingerprints_of_patch_locates_hashes() {
    let fps = fingerprints_of_patch(PATCH, "repo").unwrap();
    let expected: Vec<Fingerprint> = winnow_str("The quick brown fox jumps", 10)
        .into_iter()
        .map(|h| Fingerprint {
            hash: h,
            location: Location {
                repo: "repo".to_string(),
                commit: commit(),
                file: "b/f.txt".to_string(),
                line: 1,
            },
        })
        .collect();
    assert_eq!(fps, expected);
}

#[test]
fn short_commit_hash_is_padded() {
    let text = PATCH.replacen("0123456789abcdef0123456789abcdef01234567", "beef", 1);
    let fps = fingerprints_of_patch(&text, "repo").unwrap();
    let mut c = [0u8; 20];
    c[0] = 0xbe;
    c[1] = 0xef;
    assert!(!fps.is_empty());
    assert!(fps.iter().all(|f| f.location.commit == c));
}

#[test]
fn patch_errors() {
    assert_eq!(
        fingerprints_of_patch("--- a/x\n+++ b/x\n+++ b/y\n", "r"),
        Err(PatchError::Diff("TargetWithoutSource(\"+++ b/y\")".to_string()))
    );
    assert_eq!(fingerprints_of_patch("From", "r"), Err(PatchError::MissingCommitHash));
    let bad = PATCH.replacen("0123456789abcdef0123456789abcdef01234567", "xyz1", 1);
    assert_eq!(fingerprints_of_patch(&bad, "r"), Err(PatchError::BadCommitHash(HexError::InvalidDigit)));
    let long = PATCH.replacen(
        "0123456789abcdef0123456789abcdef01234567",
        "0123456789abcdef0123456789abcdef0123456789",
        1,
    );
    assert_eq!(fingerprints_of_patch(&long, "r"), Err(PatchError::CommitHashTooLong));
}

#[test]
fn commit_message_line_like_a_hunk_header_is_read() {
    let text = PATCH.replacen("Subject: [PATCH] add file\n", "Subject: [PATCH] add file\n\n@@ -see above\n", 1);
    assert!(diff_parse_total_check(&text));
    assert_eq!(fingerprints_of_patch(&text, "repo"), fingerprints_of_patch(PATCH, "repo"));
}

#[test]
fn parse_errors_before_a_risky_line_are_reported() {
    // the hunk header before any file header makes `parse` fail first
    let text = "From beef\n@@ -\u{661} +1 @@\n@@ -1 +1 @@\n+x\n";
    match fingerprints_of_patch(text, "r") {
        Err(PatchError::Diff(e)) => assert!(e.starts_with("UnexpectedHunk"), "{}", e),
        other => panic!("{:?}", other),
    }
    // a second target header while a file is open is an error, not a panic
    assert!(diff_parse_total_check("--- a\n+++ b\n+++ c\n"));
}

#[test]
fn hunk_bodies_are_not_read_as_headers() {
    // an added line `++ x` and a removed line `-- y` look like file headers
    let text = "From beef\n--- a/h.txt\n+++ b/h.txt\n@@ -1,2 +1,2 @@\n+++ first added words here\n--- removed words here\n+second added words here\n context\n";
    assert!(diff_parse_total_check(text));
    let fps = fingerprints_of_patch(text, "r").unwrap();
    let mut expected: Vec<u64> = winnow_str("++ first added words here", 10);
    expected.extend(winnow_str("second added words here", 10));
    assert_eq!(fps.iter().map(|f| f.hash).collect::<Vec<u64>>(), expected);
    assert!(fps.iter().all(|f| f.location.file == "b/h.txt"));
}
