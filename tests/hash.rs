use qrc_extract::hash::{hash_chars, hash_str};

#[test]
fn hash_of_empty_string_is_zero() {
    assert_eq!(hash_str(""), 0);
}

#[test]
fn hash_of_short_strings() {
    assert_eq!(hash_str("a"), 0x61);
    assert_eq!(hash_str("abc"), 0x6783);
    assert_eq!(hash_str("qt"), 0x784);
}

#[test]
fn hash_folds_the_high_nibble() {
    // Long enough that the high nibble is set and folded back.
    assert_eq!(hash_str("abcdefghijkl"), 0x002f_f47c);
}

#[test]
fn hash_of_chars_matches_hash_of_str() {
    let s = "resources";
    let chars: Vec<char> = s.chars().collect();
    assert_eq!(hash_chars(&chars), hash_str(s));
}
