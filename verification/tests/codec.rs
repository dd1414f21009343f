use pastebin::paste_id::{base62_char, is_base62, PasteID, ALPHABET_SIZE, DEFAULT_ID_LENGTH};

fn in_alphabet(c: char) -> bool {
    c.is_ascii_digit() || c.is_ascii_lowercase() || c.is_ascii_uppercase()
}

#[test]
fn generate_length_and_alphabet() {
    for len in [1usize, 2, DEFAULT_ID_LENGTH, 12, 64] {
        let id = PasteID::new(len);
        assert_eq!(id.as_str().len(), len);
        assert!(id.as_str().chars().all(in_alphabet));
    }
}

#[test]
fn generate_draws_are_independent() {
    // Many draws: every one of the 62 symbols should appear, the counts
    // should stay roughly uniform, and the identifiers should not repeat.
    let rounds = 2000usize;
    let mut counts = [0usize; 62];
    let mut seen: Vec<String> = Vec::new();
    for _ in 0..rounds {
        let id = PasteID::new(DEFAULT_ID_LENGTH);
        for c in id.as_str().chars() {
            assert!(in_alphabet(c));
            let ord = if c.is_ascii_digit() {
                c as usize - '0' as usize
            } else if c.is_ascii_lowercase() {
                10 + c as usize - 'a' as usize
            } else {
                36 + c as usize - 'A' as usize
            };
            counts[ord] += 1;
        }
        seen.push(id.as_str().to_string());
    }
    let draws = rounds * DEFAULT_ID_LENGTH;
    let expected = draws / ALPHABET_SIZE;
    for &n in counts.iter() {
        assert!(n > 0, "a symbol never appeared over {} draws", draws);
        assert!(n < 4 * expected, "a symbol appeared far too often");
    }
    seen.sort();
    seen.dedup();
    assert_eq!(seen.len(), rounds, "generated identifiers collided");
}

#[test]
fn base62_char_ordinal_mapping() {
    assert_eq!(base62_char(0), '0');
    assert_eq!(base62_char(9), '9');
    assert_eq!(base62_char(10), 'a');
    assert_eq!(base62_char(35), 'z');
    assert_eq!(base62_char(36), 'A');
    assert_eq!(base62_char(61), 'Z');
    for i in 0..62usize {
        assert!(in_alphabet(base62_char(i)));
    }
}

#[test]
fn is_base62_accepts_alphabet_only() {
    assert!(is_base62("abcXYZ019"));
    assert!(is_base62("0"));
    assert!(is_base62(""));
    assert!(!is_base62("a/b"));
    assert!(!is_base62("."));
    assert!(!is_base62(".."));
    assert!(!is_base62("with space"));
    assert!(!is_base62("tab\t"));
    assert!(!is_base62("caf\u{e9}"));
}

#[test]
fn validate_rejects_foreign_characters() {
    for bad in ["/", ".", "..", "a/b", "a.b", "hello world", "\n", "id-1", "caf\u{e9}", "../../etc"] {
        match PasteID::validate(bad) {
            Ok(_) => panic!("accepted {:?}", bad),
            Err(e) => assert_eq!(e.offending, bad),
        }
    }
}

#[test]
fn validate_round_trips_exact_string() {
    for good in ["abc123XYZ", "00000000", "ZZZZ", "0", "9", "a", "z", "A", "Z", "aA0zZ9"] {
        let id = PasteID::validate(good).ok().unwrap();
        assert_eq!(id.as_str(), good);
        assert_eq!(id.key().as_str(), good);
    }
}

#[test]
fn validate_accepts_empty_segment() {
    // The empty string has no character outside the alphabet; rejecting
    // empty path segments is the routing layer's concern.
    let id = PasteID::validate("").ok().unwrap();
    assert_eq!(id.as_str(), "");
}
