use cipher_crack::caesar::Caesar;
use cipher_crack::dict::Dict;

#[test]
fn ident_shifts() {
    for letter in "abcdefghijklmnopqrstuvwxyz".chars() {
        assert_eq!(letter, Caesar::shift(letter, 0));
    }
}

#[test]
fn regular_shifts() {
    assert_eq!('a', Caesar::shift('c', -2));
    assert_eq!('b', Caesar::shift('a', 1));

    assert_eq!('k', Caesar::shift('a', 10));

    assert_eq!('c', Caesar::shift('x', -21));
}

#[test]
fn wrapped_shifts() {
    assert_eq!('a', Caesar::shift('z', 1));
    assert_eq!('u', Caesar::shift('e', -10))
}

#[test]
fn multiple_wraps() {
    assert_eq!('a', Caesar::shift('b', 26 + 26 * 2 + 25));
    assert_eq!('z', Caesar::shift('r', -17 - 26 * 3 - 1));
}

#[test]
fn shift_keeps_non_letters() {
    assert_eq!(' ', Caesar::shift(' ', 5));
    assert_eq!('!', Caesar::shift('!', -5));
    assert_eq!('7', Caesar::shift('7', 100));
}

#[test]
fn transform_whole_string() {
    assert_eq!("khoor, zruog!", Caesar::transform("hello, world!", 3));
    assert_eq!("hello, world!", Caesar::transform("khoor, zruog!", -3));
    assert_eq!("abc", Caesar::transform("abc", 0));
}

#[test]
fn crack_recovers_shifted_text() {
    let dict = Dict::new(vec!["hello".to_string(), "world".to_string()]);
    let cracked = Caesar::crack("Khoor, Zruog!", &dict);
    assert_eq!(Some("hello, world!".to_string()), cracked);
}

#[test]
fn crack_gives_up_without_dictionary_match() {
    let dict = Dict::new(vec!["zzzzz".to_string()]);
    assert_eq!(None, Caesar::crack("khoor zruog", &dict));
}
