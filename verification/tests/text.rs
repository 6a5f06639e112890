use code_profile_manager::json::JsonValue;
use code_profile_manager::jsonc::object_or_empty;
use code_profile_manager::keymap::{StrMap, StrSet};
use code_profile_manager::ui::heading_rule;
use code_profile_manager::text::{
    char_is_whitespace, chars_of, contains, lines, parse_u64, starts_with, string_of, to_ascii_lowercase, trim,
    version_parts,
};

fn c(s: &str) -> Vec<char> {
    s.chars().collect()
}

fn strs(v: Vec<Vec<char>>) -> Vec<String> {
    v.into_iter().map(|l| l.into_iter().collect()).collect()
}

#[test]
fn lines_follow_str_lines() {
    for text in ["", "a", "a\n", "a\nb", "a\r\nb\r\n", "a\n\nb", "x\r", "\n", "a\rb\n"] {
        let expected: Vec<String> = text.lines().map(str::to_owned).collect();
        assert_eq!(strs(lines(&c(text))), expected, "input {text:?}");
    }
}

#[test]
fn version_parts_follow_str_split() {
    for text in ["", "1.2.3", "1-2+3", "1..2", ".", "abc"] {
        let expected: Vec<String> = text.split(['.', '-', '+']).map(str::to_owned).collect();
        assert_eq!(strs(version_parts(&c(text))), expected, "input {text:?}");
    }
}

#[test]
fn parse_u64_follows_str_parse() {
    for text in ["0", "42", "+7", "+", "", "-1", "12a", "18446744073709551615", "18446744073709551616", "007"] {
        assert_eq!(parse_u64(&c(text)), text.parse::<u64>().ok(), "input {text:?}");
    }
}

#[test]
fn trim_and_search() {
    assert_eq!(string_of(&trim(&c(" \t x y \n"))), "x y");
    assert_eq!(string_of(&trim(&c("   "))), "");
    assert!(contains(&c("hello world"), &c("o w")));
    assert!(!contains(&c("hello"), &c("hello!")));
    assert!(contains(&c("abc"), &c("")));
    assert!(starts_with(&c("Failed x"), &c("Failed")));
    assert!(!starts_with(&c("x Failed"), &c("Failed")));
    assert_eq!(string_of(&to_ascii_lowercase(&c("ERROR Ünï"))), "error Ünï");
    assert_eq!(chars_of("añb"), vec!['a', 'ñ', 'b']);
}

#[test]
fn str_map_keeps_keys_sorted() {
    let mut m = StrMap::new();
    m.insert("b".to_owned(), true);
    m.insert("a".to_owned(), true);
    m.insert("c".to_owned(), false);
    m.insert("b".to_owned(), false);
    assert_eq!(m.len(), 3);
    assert_eq!(m.key_at(0), "a");
    assert_eq!(m.key_at(1), "b");
    assert_eq!(m.key_at(2), "c");
    assert_eq!(m.get("b"), Some(&false));
    assert_eq!(m.remove("a"), Some(true));
    assert_eq!(m.remove("a"), None);
    assert!(!m.contains_key("a"));
    assert_eq!(m.len(), 2);

    let mut s = StrSet::new();
    s.insert("z".to_owned());
    s.insert("Z".to_owned());
    s.insert("z".to_owned());
    assert_eq!(s.len(), 2);
    assert_eq!(s.item_at(0), "Z");
    assert!(s.remove("z"));
    assert!(!s.remove("z"));
}

#[test]
fn object_or_empty_accepts_objects_and_null() {
    let fields = object_or_empty(JsonValue::Object(vec![("a".to_owned(), JsonValue::Null)])).unwrap();
    assert_eq!(fields.len(), 1);
    assert_eq!(object_or_empty(JsonValue::Null).unwrap().len(), 0);
    assert!(object_or_empty(JsonValue::Array(vec![])).is_none());
    assert!(object_or_empty(JsonValue::Bool(true)).is_none());
}

#[test]
fn heading_rule_is_capped() {
    assert_eq!(heading_rule("Profiles"), "--------");
    assert_eq!(heading_rule("ñé"), "--");
    assert_eq!(heading_rule(&"x".repeat(80)), "-".repeat(60));
    assert_eq!(heading_rule(""), "");
}

#[test]
fn white_space_agrees_with_char_is_whitespace() {
    for code in 0u32..=0x10FFFF {
        if let Some(ch) = char::from_u32(code) {
            assert_eq!(char_is_whitespace(ch), ch.is_whitespace(), "char {code:#x}");
            let single = ch.to_string();
            assert_eq!(trim(&c(&single)).into_iter().collect::<String>(), single.trim());
        }
    }
}

#[test]
fn trim_drops_unicode_white_space_at_both_ends() {
    let text = "\u{3000}\u{a0} id \u{2028}\t";
    assert_eq!(trim(&c(text)).into_iter().collect::<String>(), text.trim());
    assert_eq!(trim(&c(text)).into_iter().collect::<String>(), "id");
}
