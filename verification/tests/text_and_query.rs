use ubuntu_desktop_help::search_provider::UbuntuDesktopHelp;
use ubuntu_desktop_help::text::{
    eq_ignore_ascii_case, is_whitespace, join_strings, strip_prefix_str, trim_end_matches_char,
    trim_start_str, trim_str,
};

fn strings(parts: &[&str]) -> Vec<String> {
    parts.iter().map(|p| p.to_string()).collect()
}

#[test]
fn trim_removes_unicode_whitespace_at_both_ends() {
    assert_eq!(trim_str("  \t hello world \n"), "hello world");
    assert_eq!(trim_str("\u{3000}x\u{00a0}"), "x");
    assert_eq!(trim_str("   "), "");
    assert_eq!(trim_str(""), "");
    assert_eq!(trim_start_str("  a b  "), "a b  ");
}

#[test]
fn whitespace_matches_std() {
    for c in ['\t', '\n', ' ', '\u{85}', '\u{a0}', '\u{2009}', '\u{3000}', 'a', '?', '\u{200b}'] {
        assert_eq!(is_whitespace(c), c.is_whitespace(), "{:?}", c);
    }
}

#[test]
fn trailing_slashes_are_removed() {
    assert_eq!(trim_end_matches_char("http://host//", '/'), "http://host");
    assert_eq!(trim_end_matches_char("abc", '/'), "abc");
}

#[test]
fn prefix_is_stripped_only_when_present() {
    assert_eq!(strip_prefix_str("??wifi", "??"), Some("wifi"));
    assert_eq!(strip_prefix_str("?wifi", "??"), None);
    assert_eq!(strip_prefix_str("", "??"), None);
}

#[test]
fn ascii_case_is_ignored() {
    assert!(eq_ignore_ascii_case("EXIT", "exit"));
    assert!(eq_ignore_ascii_case("eXiT", "exit"));
    assert!(!eq_ignore_ascii_case("exits", "exit"));
    assert!(!eq_ignore_ascii_case("ÉXIT", "éxit"));
}

#[test]
fn join_puts_the_separator_between_parts() {
    assert_eq!(join_strings(&strings(&["a", "b", "c"]), " "), "a b c");
    assert_eq!(join_strings(&strings(&[]), " "), "");
    assert_eq!(join_strings(&strings(&["one"]), ", "), "one");
}

#[test]
fn question_after_prefix_is_extracted() {
    let q = UbuntuDesktopHelp::extract_query(&strings(&["??", "how", "do", "I", "connect", "wifi"]));
    assert_eq!(q, Some("how do I connect wifi".to_string()));
    let q = UbuntuDesktopHelp::extract_query(&strings(&["??wifi"]));
    assert_eq!(q, Some("wifi".to_string()));
    let q = UbuntuDesktopHelp::extract_query(&strings(&["  ??  printer  "]));
    assert_eq!(q, Some("printer".to_string()));
}

#[test]
fn searches_without_a_question_are_ignored() {
    assert_eq!(UbuntuDesktopHelp::extract_query(&strings(&["firefox"])), None);
    assert_eq!(UbuntuDesktopHelp::extract_query(&strings(&["??"])), None);
    assert_eq!(UbuntuDesktopHelp::extract_query(&strings(&["??", "  "])), None);
    assert_eq!(UbuntuDesktopHelp::extract_query(&strings(&["?", "?x"])), None);
    assert_eq!(UbuntuDesktopHelp::extract_query(&strings(&[])), None);
}

#[test]
fn result_set_holds_the_single_result_for_questions() {
    let mut provider = UbuntuDesktopHelp::new();
    assert_eq!(provider.get_initial_result_set(&strings(&["??", "wifi"])), vec!["ask".to_string()]);
    assert!(provider.get_initial_result_set(&strings(&["wifi"])).is_empty());
    assert_eq!(
        provider.get_subsearch_result_set(&strings(&[]), &strings(&["??", "sound"])),
        vec!["ask".to_string()]
    );
    assert!(provider.get_subsearch_result_set(&strings(&["ask"]), &strings(&["sound"])).is_empty());
}

#[test]
fn metas_are_given_for_the_result_only() {
    let provider = UbuntuDesktopHelp::new();
    let metas = provider.get_result_metas(strings(&["other", "ask", "x"]));
    assert_eq!(metas.len(), 1);
    let expected: Vec<(String, String)> = vec![
        ("id".to_string(), "ask".to_string()),
        ("name".to_string(), "Ask Ubuntu Desktop Help".to_string()),
        ("description".to_string(), "Open the assistant for an answer".to_string()),
        ("gicon".to_string(), "help-browser".to_string()),
    ];
    assert_eq!(metas[0], expected);
    assert!(provider.get_result_metas(strings(&["nope"])).is_empty());
}

#[test]
fn whitespace_agrees_with_std_on_every_char() {
    for u in 0u32..=0x10ffff {
        if let Some(c) = char::from_u32(u) {
            assert_eq!(is_whitespace(c), c.is_whitespace(), "U+{:04X}", u);
        }
    }
}

#[test]
fn trim_agrees_with_std() {
    for s in ["", " ", "a", " a", "a ", "\u{2028}x y\u{3000}", "\n\n", "é ", " ü\u{85}", "\u{200b}z\u{200b}"] {
        assert_eq!(trim_str(s), s.trim());
        assert_eq!(trim_start_str(s), s.trim_start());
    }
}

#[test]
fn description_shows_the_current_question() {
    let mut provider = UbuntuDesktopHelp::new();
    let question = "x".repeat(40);
    let terms = strings(&["??", &question]);
    assert_eq!(provider.get_initial_result_set(&terms), vec!["ask".to_string()]);
    let metas = provider.get_result_metas(strings(&["ask"]));
    assert_eq!(metas.len(), 1);
    assert_eq!(metas[0][2], ("description".to_string(), question.clone()));
    provider.get_subsearch_result_set(&terms, &strings(&["??", "sound", "settings"]));
    let metas = provider.get_result_metas(strings(&["ask"]));
    assert_eq!(metas[0][2].1, "sound settings");
}
