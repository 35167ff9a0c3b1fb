use cipher_crack::CipherError;
use cipher_crack::alpha::LetterSet;
use cipher_crack::alpha::cribs_l2;
use cipher_crack::alpha::get_letter_pos;
use cipher_crack::alpha::rm_punct;
use cipher_crack::simp_sub::SimpSub;

const ALPHABET: &str = "abcdefghijklmnopqrstuvwxyz";

#[test]
fn test_change_key() {
    let mut key = SimpSub::new(ALPHABET, ALPHABET).unwrap();
    key.change_key('a', 't');
    assert_eq!(key.encrypt("a"), "t");
    assert_eq!(key.encrypt("t"), "a");

    key.change_key('t', 'b');
    assert_eq!(key.encrypt("b"), "a");
    assert_eq!(key.encrypt("t"), "b");
}

#[test]
fn test_encrypt() {
    let encoder = SimpSub::new(
        ALPHABET,
        "AZERTYUIOPQSDFGHJKLMWXCVBN".to_ascii_lowercase().as_str(),
    )
    .unwrap();
    assert_eq!(
        "REGRT EAF YOFR ASHIAZTMOEAS LWZLMOMWMOGFL DART MG A MTVM ZB AFASBNOFU STMMTK YKTJWTFEOTL."
            .to_ascii_lowercase(),
        encoder
            .encrypt("dCode can find alphabetical substitutions made to a text by analyzing letter frequencies."));
}

#[test]
fn test_decrypt() {
    let encoder = SimpSub::new(
        "AZERTYUIOPQSDFGHJKLMWXCVBN".to_ascii_lowercase().as_str(),
        ALPHABET,
    )
    .unwrap();

    assert_eq!(
        "dcode can find alphabetical substitutions made to a text by analyzing letter frequencies."
            .to_ascii_lowercase(),
        encoder
            .encrypt("REGRT EAF YOFR ASHIAZTMOEAS LWZLMOMWMOGFL DART MG A MTVM ZB AFASBNOFU STMMTK YKTJWTFEOTL.")
    );

    let encoder = SimpSub::new(
        ALPHABET,
        "AZERTYUIOPQSDFGHJKLMWXCVBN".to_ascii_lowercase().as_str(),
    )
    .unwrap();

    assert_eq!(
        "dcode can find alphabetical substitutions made to a text by analyzing letter frequencies.",
        encoder.decrypt("REGRT EAF YOFR ASHIAZTMOEAS LWZLMOMWMOGFL DART MG A MTVM ZB AFASBNOFU STMMTK YKTJWTFEOTL.")
    );
}

#[test]
fn test_keys_different_after_swap() {
    let cipher0 = SimpSub::new(ALPHABET, ALPHABET).unwrap();
    let cipher1 = cipher0.swap_rand_letters(&mut rand::thread_rng());

    let (f0, k0) = cipher0.key_as_str();
    let (f1, k1) = cipher1.key_as_str();
    assert_ne!(k0, k1);
    assert_eq!(f0, f1);
}

#[test]
fn test_keys_diff_many_swaps() {
    let mut rng = rand::thread_rng();
    let mut cipher = SimpSub::with_rand_key();
    for i in 0..10000 {
        let new_cipher = cipher.swap_rand_letters(&mut rng);
        assert_ne!(
            cipher.key_as_str().1,
            new_cipher.key_as_str().1,
            "failed on iteration {}",
            i
        );
        cipher = new_cipher;
    }
}

#[test]
fn key_length_mismatch() {
    assert_eq!(
        SimpSub::new("ab", "abc").unwrap_err(),
        CipherError::KeyLengthMismatch
    );
}

#[test]
fn encrypt_then_decrypt_round_trips() {
    let key = SimpSub::with_rand_key();
    let text = "attack the east wall of the castle at dawn, 7pm sharp!";
    assert_eq!(key.decrypt(key.encrypt(text).as_str()), text);
}

#[test]
fn swap_twice_restores_key() {
    let key = SimpSub::with_rand_key();
    let swapped = key.swap_letters_at('d', 'q').swap_letters_at('d', 'q');
    assert_eq!(key.key_as_str(), swapped.key_as_str());
    let same = key.swap_letters_at('h', 'h');
    assert_eq!(key.key_as_str(), same.key_as_str());
}

#[test]
fn reassign_keeps_bijectivity() {
    let mut key = SimpSub::with_rand_key();
    for c in "hellothereanybody".chars() {
        key.change_key(c, 'z');
        key.change_key('q', c);
    }
    let (dom, img) = key.key_as_str();
    assert_eq!(dom, ALPHABET);
    let mut image_letters: Vec<char> = img.chars().collect();
    image_letters.sort_unstable();
    let sorted: String = image_letters.into_iter().collect();
    assert_eq!(sorted, ALPHABET);
}

#[test]
fn crib_match_assigns_pairs() {
    let key = SimpSub::new(ALPHABET, ALPHABET).unwrap();
    let empty = LetterSet::new();
    let matched = key.match_crib("xy", "to", &empty).unwrap();
    assert_eq!(matched.encrypt("x"), "t");
    assert_eq!(matched.encrypt("y"), "o");
}

#[test]
fn crib_match_rejects_committed_letter() {
    let key = SimpSub::new(ALPHABET, ALPHABET).unwrap();
    let mut used = LetterSet::new();
    used.insert('x');
    assert_eq!(
        key.match_crib("xy", "of", &used).unwrap_err(),
        CipherError::LetterAlreadyCommitted
    );
}

#[test]
fn crib_match_rejects_internal_conflict() {
    let key = SimpSub::new(ALPHABET, ALPHABET).unwrap();
    let empty = LetterSet::new();
    assert_eq!(
        key.match_crib("aa", "to", &empty).unwrap_err(),
        CipherError::InternalConflict
    );
}

#[test]
fn crib_match_allows_repeated_pair() {
    let key = SimpSub::new(ALPHABET, ALPHABET).unwrap();
    let empty = LetterSet::new();
    let matched = key.match_crib("aba", "klk", &empty).unwrap();
    assert_eq!(matched.encrypt("ab"), "kl");
}

#[test]
fn letter_positions() {
    assert_eq!(get_letter_pos('a'), Some(0));
    assert_eq!(get_letter_pos('z'), Some(25));
    assert_eq!(get_letter_pos('A'), None);
    assert_eq!(get_letter_pos('!'), None);
}

#[test]
fn punctuation_is_stripped() {
    assert_eq!(rm_punct("he,l.lo!:;"), "hello");
    assert_eq!(rm_punct("plain"), "plain");
    assert_eq!(rm_punct("keep-dash'quote"), "keep-dash'quote");
}

#[test]
fn crib_catalogue_shape() {
    let cribs = cribs_l2();
    assert_eq!(cribs.len(), 24);
    assert_eq!(cribs[0], "of");
    assert_eq!(cribs[1], "to");
    assert_eq!(cribs[23], "am");
    for crib in &cribs {
        assert_eq!(crib.len(), 2);
        assert!(crib.chars().all(|c| c.is_ascii_lowercase()));
    }
}
