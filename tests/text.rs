use a_chat::text::{chars_of, same_chars, space, trimmed_bounds};

#[test]
fn whitespace_follows_unicode() {
    for c in [' ', '\t', '\n', '\r', '\u{b}', '\u{c}', '\u{85}', '\u{a0}', '\u{2003}', '\u{3000}'] {
        assert!(space(c), "{:?}", c);
        assert_eq!(space(c), c.is_whitespace());
    }
    for c in ['a', ':', ',', '\u{200b}', '\u{0}'] {
        assert!(!space(c), "{:?}", c);
        assert_eq!(space(c), c.is_whitespace());
    }
}

#[test]
fn chars_of_keeps_every_character() {
    assert_eq!(chars_of("aé:ü"), vec!['a', 'é', ':', 'ü']);
    assert!(chars_of("").is_empty());
}

#[test]
fn trimmed_bounds_within_a_range() {
    let v = chars_of("x  ab c \ty");
    assert_eq!(trimmed_bounds(&v, 1, 9), (3, 7));
    assert_eq!(trimmed_bounds(&v, 1, 3), (3, 3));
    assert_eq!(trimmed_bounds(&v, 0, 10), (0, 10));
    assert_eq!(trimmed_bounds(&v, 4, 4), (4, 4));
}

#[test]
fn same_chars_compares_contents() {
    assert!(same_chars(&chars_of("bob"), &chars_of("bob")));
    assert!(!same_chars(&chars_of("bob"), &chars_of("Bob")));
    assert!(!same_chars(&chars_of("bob"), &chars_of("bobby")));
    assert!(same_chars(&chars_of(""), &chars_of("")));
}
