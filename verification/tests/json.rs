//! JSON values and the texts around them.

use symposium::json::Json;
use symposium::text::{
    decimal_string, first_line, join_strings, split_words, text_before, trimmed,
};

#[test]
fn an_object_is_walked_in_key_order() {
    let value = Json::object(vec![
        ("b".to_string(), Json::Bool(false)),
        ("a".to_string(), Json::Null),
        ("b".to_string(), Json::Bool(true)),
    ]);
    assert_eq!(
        value,
        Json::Object(vec![
            ("a".to_string(), Json::Null),
            ("b".to_string(), Json::Bool(true)),
        ])
    );
    assert_eq!(value.get("b"), Some(&Json::Bool(true)));
    assert_eq!(value.get("c"), None);
    assert_eq!(Json::Null.get("a"), None);
    assert_eq!(Json::Str("x".to_string()).as_str(), Some("x"));
    assert_eq!(Json::Null.as_str(), None);
    assert_eq!(value.clone(), value);
}

#[test]
fn texts_are_cut_and_joined() {
    let chars: Vec<char> = "\u{a0} a\tb \n".chars().collect();
    assert_eq!(trimmed(&chars, 0, chars.len()), "a\tb");
    assert_eq!(split_words(&chars), vec!["a".to_string(), "b".to_string()]);
    assert_eq!(first_line(" one \r\ntwo"), "one");
    assert_eq!(first_line(""), "");
    assert_eq!(
        join_strings(&["a".to_string(), "".to_string(), "b".to_string()], ", "),
        "a, , b"
    );
    assert_eq!(join_strings(&[], ", "), "");
    assert_eq!(decimal_string(0), "0");
    assert_eq!(decimal_string(u128::MAX), u128::MAX.to_string());
}

#[test]
fn dictionary_order_is_the_order_of_strings() {
    let texts = ["", "a", "aa", "ab", "b", "B", "é", "日", "\u{10ffff}"];
    for a in texts {
        for b in texts {
            assert_eq!(text_before(a, b), a < b, "{a} {b}");
        }
    }
}

/// The white space that is trimmed is the white space Rust trims.
#[test]
fn white_space_is_the_unicode_one() {
    for code in 0..=0x3100u32 {
        if let Some(c) = char::from_u32(code) {
            let chars = [c];
            assert_eq!(trimmed(&chars, 0, 1).is_empty(), c.is_whitespace(), "{code:x}");
        }
    }
}
