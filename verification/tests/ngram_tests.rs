use std::collections::HashMap;

use cipher_crack::CipherError;
use cipher_crack::ngram::NGram;

/// Turns English text into frequency-table lines, one quadgram and its count
/// per line, counting the overlapping windows inside each letter run.
fn quad_lines(text: &str) -> Vec<String> {
    let mut counts: HashMap<String, u64> = HashMap::new();
    for word in text.split_whitespace() {
        let letters: Vec<char> = word
            .chars()
            .filter(|c| c.is_ascii_alphabetic())
            .map(|c| c.to_ascii_lowercase())
            .collect();
        for w in letters.windows(4) {
            let quad: String = w.iter().collect();
            *counts.entry(quad).or_insert(0) += 1;
        }
    }
    let mut lines: Vec<String> = counts
        .into_iter()
        .map(|(quad, n)| format!("{} {}", quad, n))
        .collect();
    lines.sort();
    lines
}

const CORPUS: &str = "attack attack attack the east wall of the castle at dawn \
    the soldiers will attack the castle walls in the east when the dawn comes \
    every wall of the castle must fall and the eastern gate will stand open \
    they watched the walls at dawn and the attack came from the east at last";

#[test]
fn test_rel_freq() {
    let quads = NGram::from_lines(&quad_lines(CORPUS)).unwrap();

    let eng: Vec<char> = "ATTACK THE EAST WALL OF THE CASTLE AT DAWN"
        .to_ascii_lowercase()
        .chars()
        .collect();
    let nonsense: Vec<char> = "FYYFHP YMJ JFXY BFQQ TK YMJ HFXYQJ FY IFBS"
        .to_ascii_lowercase()
        .chars()
        .collect();

    let (score_eng, score_nonsense) = (quads.score_chars(&eng), quads.score_chars(&nonsense));
    assert!(score_eng > score_nonsense);
}

#[test]
fn single_entry_scores_exactly() {
    let lines = vec!["abcd 1".to_string()];
    let quads = NGram::from_lines(&lines).unwrap();
    // one observed quadgram out of a total count of 1: log score 0
    assert_eq!(quads.score_chars(&['a', 'b', 'c', 'd']), 0);
    // the floor stands two decimal orders of magnitude under the total
    assert_eq!(quads.score_chars(&['a', 'b', 'c', 'e']), -2_000_000);
    // windows shorter than four letters score nothing
    assert_eq!(quads.score_chars(&['a', 'b', 'c']), 0);
    // overlapping windows add up
    assert_eq!(quads.score_chars(&['a', 'b', 'c', 'd', 'a']), -2_000_000);
}

#[test]
fn scores_are_scaled_logarithms() {
    let lines = vec![
        "abcd 2".to_string(),
        "bcda 1".to_string(),
        "cdab 1".to_string(),
    ];
    let quads = NGram::from_lines(&lines).unwrap();
    // log10(2/4) and log10(1/4) in millionths, from the fixed-point model
    assert_eq!(quads.score_chars(&['a', 'b', 'c', 'd']), -301_030);
    assert_eq!(quads.score_chars(&['b', 'c', 'd', 'a']), -602_060);
    assert_eq!(
        quads.score_chars(&['a', 'b', 'c', 'd', 'a']),
        -301_030 - 602_060
    );
    // non-letter characters spoil every window they touch
    assert_eq!(quads.score_chars(&['a', 'b', '!', 'd']), -2_000_000 - 602_060);
}

#[test]
fn malformed_sources_are_rejected() {
    let no_lines: Vec<String> = vec![];
    assert_eq!(NGram::from_lines(&no_lines).unwrap_err(), CipherError::CorpusLoadError);

    let missing_count = vec!["abcd".to_string()];
    assert_eq!(NGram::from_lines(&missing_count).unwrap_err(), CipherError::CorpusLoadError);

    let bad_count = vec!["abcd x7".to_string()];
    assert_eq!(NGram::from_lines(&bad_count).unwrap_err(), CipherError::CorpusLoadError);

    let zero_count = vec!["abcd 0".to_string()];
    assert_eq!(NGram::from_lines(&zero_count).unwrap_err(), CipherError::CorpusLoadError);

    let short_quad = vec!["abc 5".to_string()];
    assert_eq!(NGram::from_lines(&short_quad).unwrap_err(), CipherError::CorpusLoadError);

    let upper_quad = vec!["ABCD 5".to_string()];
    assert_eq!(NGram::from_lines(&upper_quad).unwrap_err(), CipherError::CorpusLoadError);
}

#[test]
fn later_duplicate_entries_win() {
    let lines = vec!["abcd 1".to_string(), "abcd 3".to_string()];
    let quads = NGram::from_lines(&lines).unwrap();
    // total is 4; the slot holds log10(3/4), not log10(1/4)
    let score = quads.score_chars(&['a', 'b', 'c', 'd']);
    assert!(score > -602_060 / 2);
    assert!(score < 0);
}
