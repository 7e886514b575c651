use notemancy::sanitize::sanitize_title;

#[test]
fn title_becomes_a_file_name_stem() {
    assert_eq!(sanitize_title("  Hello, World!  "), "hello-world");
}

#[test]
fn uppercase_is_lowered() {
    assert_eq!(sanitize_title("ABC"), "abc");
}

#[test]
fn punctuation_becomes_single_dashes() {
    assert_eq!(sanitize_title("a!b"), "a-b");
    assert_eq!(sanitize_title("a -- b"), "a-b");
}

#[test]
fn digits_are_kept() {
    assert_eq!(sanitize_title("Plan 9 from 2024"), "plan-9-from-2024");
}

#[test]
fn empty_and_all_punctuation_titles_become_empty() {
    assert_eq!(sanitize_title(""), "");
    assert_eq!(sanitize_title("!!!"), "");
    assert_eq!(sanitize_title("   "), "");
}

#[test]
fn no_leading_or_trailing_dash_survives() {
    assert_eq!(sanitize_title("--x--"), "x");
}
