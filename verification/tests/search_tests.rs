use std::collections::HashMap;

use cipher_crack::ngram::NGram;
use cipher_crack::simp_sub::SimpSub;
use cipher_crack::simp_sub::crack;
use cipher_crack::simp_sub::freq_list;
use cipher_crack::simp_sub::improve;
use cipher_crack::simp_sub::rand_crack;

/// Turns English text into frequency-table lines, one quadgram and its count
/// per line, counting the overlapping windows inside each letter run.
fn quad_lines(text: &str) -> Vec<String> {
    let mut counts: HashMap<String, u64> = HashMap::new();
    for word in text.split_whitespace() {
        let letters: Vec<char> = word
            .chars()
            .filter(|c| c.is_ascii_alphabetic())
            .map(|c| c.to_ascii_lowercase())
            .collect();
        for w in letters.windows(4) {
            let quad: String = w.iter().collect();
            *counts.entry(quad).or_insert(0) += 1;
        }
    }
    let mut lines: Vec<String> = counts
        .into_iter()
        .map(|(quad, n)| format!("{} {}", quad, n))
        .collect();
    lines.sort();
    lines
}

/// The score that a key's decryption of `text` gets, recomputed by hand from
/// the public pieces: lowercase, split, strip punctuation, decrypt each word,
/// flatten and score.
fn score_by_hand(key: &SimpSub, text: &str, quads: &NGram) -> i64 {
    let lower = text.to_lowercase();
    let mut stream: Vec<char> = Vec::new();
    for word in lower.split_whitespace() {
        let stripped: String = word.chars().filter(|c| !matches!(c, ',' | '.' | '!' | ':' | ';')).collect();
        stream.extend(key.decrypt(&stripped).chars());
    }
    quads.score_chars(&stream)
}

const CORPUS: &str = "steel state taste least tales asset easel settle less tell \
    all tea eat sea set let sale seal late tale stale slate steal least lasts \
    tells tastes states steels assets easels settles salts slates steals";

const PLAINTEXT: &str = "steel state taste least tales asset easel settle slate steal";

#[test]
fn multi_start_search_matches_or_beats_the_true_key() {
    let quads = NGram::from_lines(&quad_lines(CORPUS)).unwrap();
    let true_key = SimpSub::with_rand_key();
    let ciphertext = true_key.encrypt(PLAINTEXT);

    let truth_score = score_by_hand(&true_key, &ciphertext, &quads);
    let (found, score) = rand_crack(&ciphertext, &quads, 300);

    // the returned score really is the score of the returned key's decryption
    assert_eq!(score, score_by_hand(&found, &ciphertext, &quads));
    // score-dominance is the correctness bar, not exact key recovery
    assert!(
        score >= truth_score,
        "search stopped at {} but the true key scores {}",
        score,
        truth_score
    );
}

#[test]
fn improve_never_worsens_a_key() {
    let quads = NGram::from_lines(&quad_lines(CORPUS)).unwrap();
    let start = SimpSub::with_rand_key();
    let ciphertext = start.encrypt(PLAINTEXT);
    let words: Vec<String> = ciphertext.split_whitespace().map(|w| w.to_string()).collect();

    let start_score = score_by_hand(&start, &ciphertext, &quads);
    let (better, score) = improve(start, &words, &quads);
    assert!(score >= start_score);
    assert_eq!(score, score_by_hand(&better, &ciphertext, &quads));
}

#[test]
fn crack_returns_a_valid_key() {
    let quads = NGram::from_lines(&quad_lines(CORPUS)).unwrap();
    let true_key = SimpSub::with_rand_key();
    let ciphertext = true_key.encrypt("a settle at the east, a steel tale!");
    let found = crack(&ciphertext, 200, &quads);
    // whatever the random walk found, it is still a permutation
    let (dom, img) = found.key_as_str();
    assert_eq!(dom, "abcdefghijklmnopqrstuvwxyz");
    let mut letters: Vec<char> = img.chars().collect();
    letters.sort_unstable();
    let sorted: String = letters.into_iter().collect();
    assert_eq!(sorted, "abcdefghijklmnopqrstuvwxyz");
}

#[test]
fn freq_list_orders_by_ascending_count() {
    let words: Vec<String> = ["to", "of", "to", "in", "to", "of"]
        .iter()
        .map(|w| w.to_string())
        .collect();
    let freqs = freq_list(&words);
    assert_eq!(freqs.len(), 3);
    assert_eq!(freqs[0], ("in".to_string(), 1));
    assert_eq!(freqs[1], ("of".to_string(), 2));
    assert_eq!(freqs[2], ("to".to_string(), 3));
}

#[test]
fn random_key_is_a_permutation() {
    let key = SimpSub::with_rand_key();
    let (dom, img) = key.key_as_str();
    assert_eq!(dom, "abcdefghijklmnopqrstuvwxyz");
    let mut letters: Vec<char> = img.chars().collect();
    letters.sort_unstable();
    let sorted: String = letters.into_iter().collect();
    assert_eq!(sorted, "abcdefghijklmnopqrstuvwxyz");
}
