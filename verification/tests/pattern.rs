use extension_lookup::pattern::{
    chars_of, fold, fuzzy_like_string, like_matches, like_matches_chars,
};

#[test]
fn fold_lowers_ascii_capitals_only() {
    assert_eq!(fold('A'), 'a');
    assert_eq!(fold('M'), 'm');
    assert_eq!(fold('Z'), 'z');
    assert_eq!(fold('a'), 'a');
    assert_eq!(fold('z'), 'z');
    assert_eq!(fold('@'), '@');
    assert_eq!(fold('['), '[');
    assert_eq!(fold('7'), '7');
    assert_eq!(fold('%'), '%');
    assert_eq!(fold('É'), 'É');
}

#[test]
fn pattern_wraps_filter_in_wildcards() {
    assert_eq!(fuzzy_like_string("foo"), "%foo%");
    assert_eq!(fuzzy_like_string("Foo Bar"), "%Foo Bar%");
}

#[test]
fn pattern_of_empty_filter_is_two_wildcards() {
    assert_eq!(fuzzy_like_string(""), "%%");
}

#[test]
fn pattern_escapes_special_characters() {
    assert_eq!(fuzzy_like_string("100%"), "%100\\%%");
    assert_eq!(fuzzy_like_string("a_b"), "%a\\_b%");
    assert_eq!(fuzzy_like_string("c:\\dir"), "%c:\\\\dir%");
    assert_eq!(fuzzy_like_string("%_\\"), "%\\%\\_\\\\%");
}

#[test]
fn pattern_keeps_characters_outside_ascii() {
    assert_eq!(fuzzy_like_string("héllo"), "%héllo%");
}

#[test]
fn empty_pattern_matches_only_empty_text() {
    assert!(like_matches("", ""));
    assert!(!like_matches("", "a"));
}

#[test]
fn literal_pattern_matches_whole_text_only() {
    assert!(like_matches("foo", "foo"));
    assert!(!like_matches("foo", "foo "));
    assert!(!like_matches("foo", "xfoo"));
    assert!(!like_matches("foo", "fo"));
    assert!(!like_matches("foo", ""));
}

#[test]
fn letters_match_without_regard_to_ascii_case() {
    assert!(like_matches("foo", "FOO"));
    assert!(like_matches("FoO", "fOo"));
    assert!(like_matches("%ZED%", "the zed editor"));
    assert!(!like_matches("é", "É"));
    assert!(like_matches("é", "é"));
}

#[test]
fn any_run_matches_every_run() {
    assert!(like_matches("%", ""));
    assert!(like_matches("%", "anything at all"));
    assert!(like_matches("%%", ""));
    assert!(like_matches("a%", "a"));
    assert!(like_matches("a%", "abc"));
    assert!(!like_matches("a%", "ba"));
    assert!(like_matches("%c", "abc"));
    assert!(!like_matches("%c", "abcd"));
    assert!(like_matches("a%c", "ac"));
    assert!(like_matches("a%c", "abbbc"));
    assert!(like_matches("a%b%c", "a-b-b-c"));
    assert!(!like_matches("a%b%c", "a-c-b"));
}

#[test]
fn any_one_matches_exactly_one_character() {
    assert!(like_matches("_", "x"));
    assert!(!like_matches("_", ""));
    assert!(!like_matches("_", "xy"));
    assert!(like_matches("f_o", "fxo"));
    assert!(like_matches("f_o", "f_o"));
    assert!(!like_matches("f_o", "fo"));
    assert!(like_matches("__", "é!"));
}

#[test]
fn escaped_characters_match_themselves() {
    assert!(like_matches("100\\%", "100%"));
    assert!(!like_matches("100\\%", "1000"));
    assert!(!like_matches("100\\%", "100"));
    assert!(like_matches("a\\_b", "a_b"));
    assert!(!like_matches("a\\_b", "axb"));
    assert!(like_matches("a\\\\b", "a\\b"));
    assert!(like_matches("\\A", "a"));
}

#[test]
fn escape_at_the_end_matches_nothing() {
    assert!(!like_matches("\\", ""));
    assert!(!like_matches("\\", "\\"));
    assert!(!like_matches("abc\\", "abc"));
    assert!(!like_matches("abc\\", "abc\\"));
    assert!(!like_matches("%\\", "abc\\"));
}

#[test]
fn pattern_of_filter_finds_filter_inside_names() {
    let pattern = fuzzy_like_string("foo");
    assert!(like_matches(&pattern, "Foo"));
    assert!(like_matches(&pattern, "barfoo baz"));
    assert!(like_matches(&pattern, "foo"));
    assert!(!like_matches(&pattern, "qux"));
    assert!(!like_matches(&pattern, "f-o-o"));
    assert!(!like_matches(&pattern, "fo"));
}

#[test]
fn pattern_of_filter_takes_special_characters_literally() {
    let percent = fuzzy_like_string("100%");
    assert!(like_matches(&percent, "100%"));
    assert!(like_matches(&percent, "up to 100% faster"));
    assert!(!like_matches(&percent, "1000"));
    assert!(!like_matches(&percent, "100"));
    let underscore = fuzzy_like_string("a_c");
    assert!(like_matches(&underscore, "a_c"));
    assert!(!like_matches(&underscore, "abc"));
    let backslash = fuzzy_like_string("\\");
    assert!(like_matches(&backslash, "a\\b"));
    assert!(!like_matches(&backslash, "ab"));
}

#[test]
fn pattern_of_empty_filter_matches_every_name() {
    let pattern = fuzzy_like_string("");
    assert!(like_matches(&pattern, ""));
    assert!(like_matches(&pattern, "anything"));
}

#[test]
fn pattern_of_filter_matches_the_filter_itself() {
    for filter in ["", "foo", "100%", "_", "\\", "%%", "a\\_%b", "Ünïcödé"] {
        assert!(like_matches(&fuzzy_like_string(filter), filter));
    }
}

#[test]
fn chars_of_lists_characters_in_order() {
    assert_eq!(chars_of(""), Vec::<char>::new());
    assert_eq!(chars_of("a%é"), vec!['a', '%', 'é']);
}

#[test]
fn matching_on_characters_agrees_with_matching_on_strings() {
    let cases = [
        ("%foo%", "barfoo baz"),
        ("%foo%", "qux"),
        ("100\\%", "100%"),
        ("100\\%", "1000"),
        ("_", ""),
        ("", ""),
        ("a%b_c\\", "a-b-c\\"),
    ];
    for (pattern, text) in cases {
        assert_eq!(like_matches_chars(&chars_of(pattern), text), like_matches(pattern, text));
    }
    assert!(like_matches_chars(&vec!['%', 'Z', '_'], "xyzzy"));
    assert!(!like_matches_chars(&vec!['%', 'Z', '_'], "xyz"));
}
