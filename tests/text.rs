use negra_coref::{contains, find_char, parse_canonical, parse_usize, push_decimal, split_words, Features};

#[test]
fn words_split_on_ascii_whitespace() {
    assert_eq!(split_words("  a\tbc\n d  "), vec!["a", "bc", "d"]);
    assert!(split_words("").is_empty());
    assert!(split_words(" \r\n").is_empty());
    assert_eq!(split_words("one"), vec!["one"]);
}

#[test]
fn substring_search() {
    assert!(contains("abc", "bc"));
    assert!(contains("abc", ""));
    assert!(!contains("ab", "abc"));
    assert!(!contains("abc", "cb"));
}

#[test]
fn first_char_index() {
    assert_eq!(find_char("a.b.c", '.'), 1);
    assert_eq!(find_char("abc", '.'), 3);
    assert_eq!(find_char("", ':'), 0);
}

#[test]
fn usize_parsing() {
    assert_eq!(parse_usize("7"), Some(7));
    assert_eq!(parse_usize("+7"), Some(7));
    assert_eq!(parse_usize("007"), Some(7));
    assert_eq!(parse_usize(""), None);
    assert_eq!(parse_usize("+"), None);
    assert_eq!(parse_usize("-1"), None);
    assert_eq!(parse_usize("1a"), None);
    assert_eq!(parse_usize("18446744073709551615"), Some(usize::MAX));
    assert_eq!(parse_usize("18446744073709551616"), None);
}

#[test]
fn canonical_numbers() {
    assert_eq!(parse_canonical("0"), Some(0));
    assert_eq!(parse_canonical("501"), Some(501));
    assert_eq!(parse_canonical("05"), None);
    assert_eq!(parse_canonical("+5"), None);
    assert_eq!(parse_canonical(""), None);
}

#[test]
fn decimal_writing() {
    let mut s = String::from("x");
    push_decimal(&mut s, 0);
    push_decimal(&mut s, 1234);
    assert_eq!(s, "x01234");
}

#[test]
fn features_keep_insertion_order() {
    let mut f = Features::new();
    f.insert("b", Some("1".to_string()));
    f.insert("a", None);
    f.insert("b", Some("2".to_string()));
    assert_eq!(f.entries.len(), 2);
    assert_eq!(f.entries[0].key, "b");
    assert_eq!(f.get("a"), Some(None));
    assert_eq!(f.get("b"), Some(Some("2".to_string())));
    assert_eq!(f.get("c"), None);
    assert_eq!(f.get_val("a"), None);
}
