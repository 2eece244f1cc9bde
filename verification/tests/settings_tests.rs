use rustdiff::settings::{default_language, is_supported_language, locale_language, pick_language, resolve_language, LANGUAGE_AUTO};

#[test]
fn default_es_auto() {
    assert_eq!(default_language(), LANGUAGE_AUTO);
}

#[test]
fn explicit_preference_wins_over_environment() {
    let env = vec!["en_US.UTF-8".to_string()];
    assert_eq!(resolve_language("es", &env), "es");
}

#[test]
fn locale_language_is_read_from_first_non_empty_variable() {
    let env = vec![String::new(), "es_ES.UTF-8".to_string(), "en_US".to_string()];
    assert_eq!(resolve_language("auto", &env), "es");
    let env = vec!["ES_mx@euro".to_string()];
    assert_eq!(resolve_language("auto", &env), "es");
}

#[test]
fn unsupported_or_missing_locale_falls_back_to_english() {
    let env = vec!["fr_FR.UTF-8".to_string(), "es_ES".to_string()];
    assert_eq!(resolve_language("auto", &env), "en");
    assert_eq!(resolve_language("de", &[].to_vec()), "en");
    assert_eq!(pick_language("auto", None), "en");
    assert_eq!(pick_language("auto", Some("es")), "es");
}

#[test]
fn locale_names_reduce_to_their_language() {
    assert_eq!(locale_language("es_ES.UTF-8"), "es");
    assert_eq!(locale_language("en@latin"), "en");
    assert_eq!(locale_language("C"), "C");
    assert!(is_supported_language("en"));
    assert!(!is_supported_language("EN"));
}
