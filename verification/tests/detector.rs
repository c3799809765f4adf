use winnow::detector::{from_same_doc, run, Document};
use winnow::winnowing::{Fingerprint, Location};

fn fp(hash: u64, repo: &str, file: &str, line: usize) -> Fingerprint {
    Fingerprint {
        hash,
        location: Location { repo: repo.to_string(), commit: [7; 20], file: file.to_string(), line },
    }
}

fn doc(repo: &str, file: &str) -> Document {
    Document { repo: repo.to_string(), commit: [7; 20], file: file.to_string() }
}

fn input() -> Vec<(String, Vec<Fingerprint>)> {
    vec![
        (
            "r1".to_string(),
            vec![fp(20, "r1", "a", 1), fp(10, "r1", "b", 1), fp(11, "r1", "b", 2), fp(12, "r1", "b", 3)],
        ),
        (
            "r2".to_string(),
            vec![
                fp(30, "r2", "p", 1),
                fp(31, "r2", "q", 1),
                fp(10, "r2", "x", 4),
                fp(12, "r2", "x", 5),
                fp(12, "r2", "x", 6),
            ],
        ),
    ]
}

#[test]
fn documents_group_fingerprints() {
    let d = run(&input());
    assert_eq!(d.documents, vec![doc("r1", "a"), doc("r1", "b"), doc("r2", "p"), doc("r2", "q"), doc("r2", "x")]);
    assert_eq!(d.document_fingerprints[1], vec![fp(10, "r1", "b", 1), fp(11, "r1", "b", 2), fp(12, "r1", "b", 3)]);
    assert_eq!(d.document_fingerprints[4].len(), 3);
    assert_eq!(d.index_keys, vec![20, 10, 11, 12, 30, 31]);
}

#[test]
fn interesting_locations_are_found_elsewhere() {
    let d = run(&input());
    let lines: Vec<(String, usize)> =
        d.interesting.iter().map(|l| (l.file.clone(), l.line)).collect();
    assert_eq!(
        lines,
        vec![
            ("b".to_string(), 1),
            ("b".to_string(), 3),
            ("x".to_string(), 4),
            ("x".to_string(), 5),
            ("x".to_string(), 6),
        ]
    );
}

#[test]
fn every_pair_is_compared_and_ranked_by_matches() {
    let d = run(&input());
    let shape: Vec<(usize, usize, usize)> =
        d.pairs.iter().map(|p| (p.a, p.b, p.fingerprints.len())).collect();
    assert_eq!(
        shape,
        vec![
            (1, 4, 3),
            (0, 1, 0),
            (0, 2, 0),
            (0, 3, 0),
            (0, 4, 0),
            (1, 2, 0),
            (1, 3, 0),
            (2, 3, 0),
            (2, 4, 0),
            (3, 4, 0),
        ]
    );
    assert_eq!(
        d.pairs[0].fingerprints,
        vec![fp(10, "r2", "x", 4), fp(12, "r2", "x", 5), fp(12, "r2", "x", 6)]
    );
}

#[test]
fn all_pairs_of_documents() {
    let fps: Vec<Fingerprint> = (0..6).map(|i| fp(i, "r", &format!("f{}", i), 1)).collect();
    let d = run(&vec![("r".to_string(), fps)]);
    let pairs: Vec<(usize, usize)> = d.pairs.iter().map(|p| (p.a, p.b)).collect();
    let mut expected = vec![];
    for a in 0..6 {
        for b in a + 1..6 {
            expected.push((a, b));
        }
    }
    assert_eq!(pairs.len(), 15);
    assert_eq!(pairs, expected);
}

#[test]
fn hashes_in_one_repository_are_not_matches() {
    // Two documents of the same repository share hash 5: popularity 0.
    let d = run(&vec![(
        "r".to_string(),
        vec![fp(5, "r", "a", 1), fp(5, "r", "b", 1)],
    )]);
    assert!(d.interesting.is_empty());
    assert_eq!(d.pairs.len(), 1);
    assert!(d.pairs[0].fingerprints.is_empty());
}

#[test]
fn empty_input() {
    let d = run(&vec![]);
    assert!(d.documents.is_empty() && d.pairs.is_empty() && d.index_keys.is_empty());
}

#[test]
fn from_same_doc_compares_repo_commit_file() {
    assert!(from_same_doc(&doc("r1", "a"), &fp(1, "r1", "a", 9)));
    assert!(!from_same_doc(&doc("r1", "a"), &fp(1, "r2", "a", 9)));
    assert!(!from_same_doc(&doc("r1", "a"), &fp(1, "r1", "b", 9)));
    let mut other = fp(1, "r1", "a", 9);
    other.location.commit[19] = 0;
    assert!(!from_same_doc(&doc("r1", "a"), &other));
}
