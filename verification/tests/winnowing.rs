use std::collections::hash_map::DefaultHasher;
use std::hash::{Hash, Hasher};
use winnow::winnowing::{clean, decode_hex, hash, ngram, select_hash, winnow_str, HexError};

#[test]
fn test_clean() {
    let input = "A do run run run, a do run run";
    let input = clean(input);
    assert!(input == "adorunrunrunadorunrun");
}

#[test]
fn test_ngram() {
    let input = clean("A do run run run");
    let chars: Vec<char> = input.chars().collect();
    let ngrams = ngram(&chars, 5);
    assert_eq!(
        ngrams
            .into_iter()
            .map(|x| x.into_iter().collect::<String>())
            .collect::<Vec<String>>(),
        vec!["adoru", "dorun", "orunr", "runru", "unrun", "nrunr", "runru", "unrun"]
    );
}

#[test]
fn test_basic() {
    let input = "A do run run run, a do run run";
    let output = winnow_str(input, 5);
    let expected = vec![
        4020085029674966483,
        1468765096528618582,
        1468765096528618582,
        1468765096528618582,
        1468765096528618582,
        1468765096528618582,
        2165872647979677269,
        2165872647979677269,
        2165872647979677269,
        2880295526655702587,
        7536710649711940037,
        4020085029674966483,
        4020085029674966483,
    ];
    assert_eq!(output, expected);
}

#[test]
fn ngram_doc_example() {
    let input: Vec<char> = "abcdefgh".chars().collect();
    let ngrams = ngram(&input, 4);
    assert_eq!(
        ngrams
            .into_iter()
            .map(|x| x.into_iter().collect::<String>())
            .collect::<Vec<String>>(),
        vec!["abcd", "bcde", "cdef", "defg", "efgh"]
    );
}

#[test]
fn ngram_shorter_than_n_is_empty() {
    let input: Vec<char> = "abc".chars().collect();
    assert!(ngram(&input, 4).is_empty());
    let exact: Vec<u64> = vec![1, 2, 3];
    assert_eq!(ngram(&exact, 3), vec![vec![1, 2, 3]]);
}

#[test]
fn ngram_of_size_zero_gives_empty_grams() {
    let input: Vec<u64> = vec![7, 8];
    assert_eq!(ngram(&input, 0), vec![Vec::<u64>::new(), vec![], vec![]]);
}

#[test]
fn clean_lowercases_non_ascii_and_drops_digits() {
    assert_eq!(clean("Ab1 ÉZ_9x"), "abézx");
    assert_eq!(clean("123 ,.;"), "");
    // 'İ' lowercases to two characters
    assert_eq!(clean("İ").chars().count(), 2);
}

#[test]
fn select_hash_takes_minimum() {
    assert_eq!(select_hash(&[5, 3, 9, 3, 4]), 3);
    assert_eq!(select_hash(&[42]), 42);
    assert_eq!(select_hash(&[u64::MAX, 0]), 0);
}

#[test]
fn hash_matches_std_string_hash() {
    let s = String::from("adoru");
    let mut h = DefaultHasher::new();
    s.hash(&mut h);
    assert_eq!(hash("adoru"), h.finish());
    assert_ne!(hash("adoru"), hash("dorun"));
}

#[test]
fn winnow_short_text_gives_nothing() {
    assert!(winnow_str("abc", 5).is_empty());
    assert!(winnow_str("", 1).is_empty());
}

#[test]
fn winnow_window_one_is_gram_hashes() {
    let out = winnow_str("AbC", 1);
    assert_eq!(out, vec![hash("a"), hash("b"), hash("c")]);
}

#[test]
fn winnow_shared_substring_shares_fingerprint() {
    // Both texts contain "quickbrown" (2 * 5 - 1 = 9 letters suffice).
    let a = winnow_str("The quick brown fox", 5);
    let b = winnow_str("a QUICK-BROWN dog", 5);
    assert!(a.iter().any(|h| b.contains(h)));
}

#[test]
fn decode_hex_reads_pairs() {
    assert_eq!(decode_hex("00ff7A"), Ok(vec![0x00, 0xff, 0x7a]));
    assert_eq!(decode_hex(""), Ok(vec![]));
    assert_eq!(decode_hex("+f10"), Ok(vec![0x0f, 0x10]));
}

#[test]
fn decode_hex_errors() {
    assert_eq!(decode_hex("0g"), Err(HexError::InvalidDigit));
    assert_eq!(decode_hex("-1"), Err(HexError::InvalidDigit));
    assert_eq!(decode_hex("abc"), Err(HexError::OddLength));
    assert_eq!(decode_hex("zzc"), Err(HexError::InvalidDigit));
    // a lone last character of two UTF-8 bytes is read as a pair, and fails
    assert_eq!(decode_hex("é"), Err(HexError::InvalidDigit));
    assert_eq!(decode_hex("abé"), Err(HexError::InvalidDigit));
    assert_eq!(decode_hex("ab€"), Err(HexError::OddLength));
}

#[test]
fn decode_hex_reads_back_lowercase_hex() {
    let bytes: Vec<u8> = vec![0, 1, 15, 16, 127, 128, 171, 255];
    let text: String = bytes.iter().map(|b| format!("{:02x}", b)).collect();
    assert_eq!(text, "00010f107f80abff");
    assert_eq!(decode_hex(&text), Ok(bytes));
}

#[test]
fn ngrams_of_a_prefix_are_a_prefix() {
    let xs: Vec<u64> = vec![1, 2, 3, 4];
    let ys: Vec<u64> = vec![1, 2, 3, 4, 5, 6];
    for n in 0..6 {
        let a = ngram(&xs, n);
        let b = ngram(&ys, n);
        assert!(a.len() <= b.len());
        assert_eq!(a[..], b[..a.len()]);
    }
}

#[test]
fn winnow_ignores_case_and_punctuation() {
    assert_eq!(winnow_str("Hello, World!! 42", 3), winnow_str("helloworld", 3));
}

#[test]
fn winnow_selects_window_minimum_of_gram_hashes() {
    let text = "A do run run run, a do run run";
    let n = 5;
    let cleaned: Vec<char> = clean(text).chars().collect();
    let grams: Vec<u64> = ngram(&cleaned, n)
        .into_iter()
        .map(|g| hash(&g.into_iter().collect::<String>()))
        .collect();
    let expected: Vec<u64> = ngram(&grams, n).into_iter().map(|w| *w.iter().min().unwrap()).collect();
    let out = winnow_str(text, n);
    assert_eq!(out.len(), cleaned.len() + 2 - 2 * n as usize);
    assert_eq!(out, expected);
}

#[test]
fn cleaning_ascii_twice_cleans_once() {
    for s in ["A do run run run, a do run run", "Hello, World!! 42", "", "xyz", "MiXeD_case-123"] {
        let once = clean(s);
        assert!(once.chars().all(|c| c.is_ascii_lowercase()));
        assert_eq!(clean(&once), once);
    }
}
