use rustspell_server::engine::{strip_surrounding_punctuation, tokenize, Engine};
use rustspell_server::handlers::{
    choose_language, health_report, spellcheck_positions, spellcheck_results, token_result,
    validate_key_request, validate_origin, validate_tenant_name, HealthQuery, SpellCheckRequest,
};
use rustspell_server::error::AppError;
use rustspell_server::store::Role;

fn fixture_engine() -> Engine {
    let aff = "SET UTF-8\nTRY abc\n";
    let dic = "2\nhello\nworld\n";
    match Engine::new(aff, dic) {
        Ok(e) => e,
        Err(_) => panic!("fixture engine should parse"),
    }
}

#[test]
fn check_known_words() {
    let engine = fixture_engine();
    assert!(engine.check("hello"));
    assert!(engine.check("world"));
    assert!(!engine.check("wrld"));
}

#[test]
fn tokenize_strips_punctuation_and_preserves_positions() {
    let engine = fixture_engine();
    let tokens = engine.tokenize("Hello, world! (test)");
    assert_eq!(tokens.len(), 3);
    assert_eq!(tokens[0].token, "Hello");
    assert_eq!(tokens[0].start_char, 0);
    assert_eq!(tokens[1].token, "world");
    assert_eq!(tokens[1].start_char, 7);
    assert_eq!(tokens[2].token, "test");
    assert_eq!(tokens[2].start_char, 14);
}

#[test]
fn tokenize_handles_unicode() {
    let engine = fixture_engine();
    let tokens = engine.tokenize("café, (rien)");
    assert_eq!(tokens[0].token, "café");
    assert_eq!(tokens[0].start_char, 0);
    assert_eq!(tokens[1].token, "rien");
    assert_eq!(tokens[1].start_char, 6); // raw token '(' position preserved
}

#[test]
fn suggest_returns_results() {
    let engine = fixture_engine();
    let suggestions = engine.suggest("wrld");
    assert!(suggestions.contains(&"world".to_string()));
}

#[test]
fn tokenize_reports_byte_ranges_and_skips_bare_punctuation() {
    let tokens = tokenize("  é?\u{3000}-- ... x.y\n");
    assert_eq!(tokens.len(), 3);
    assert_eq!(tokens[0].token, "é");
    assert_eq!((tokens[0].start_byte, tokens[0].end_byte), (2, 5));
    assert_eq!(tokens[1].token, "--");
    assert_eq!(tokens[1].start_char, 5);
    assert_eq!(tokens[2].token, "x.y");
    assert_eq!(tokens[2].start_byte, 15);
    assert!(tokenize("").is_empty());
    assert_eq!(strip_surrounding_punctuation("\"(well)\""), "well");
    assert_eq!(strip_surrounding_punctuation("?!"), "");
}

#[test]
fn request_with_text_is_valid() {
    let req = SpellCheckRequest { text: Some("hello world".to_string()), words: None, language: None };
    assert!(req.validate().is_ok());
}

#[test]
fn request_with_both_fields_is_valid() {
    let req = SpellCheckRequest {
        text: Some("hello".to_string()),
        words: Some(vec!["world".to_string()]),
        language: None,
    };
    assert!(req.validate().is_ok());
}

#[test]
fn request_without_input_fails_validation() {
    let req = SpellCheckRequest { text: None, words: None, language: None };
    match req.validate() {
        Err(AppError::Validation(m)) => assert!(m.contains("Either 'text' or 'words'")),
        _ => panic!("missing input must fail validation"),
    }
}

#[test]
fn request_limits_are_enforced() {
    let long = SpellCheckRequest { text: Some("é".repeat(10_001)), words: None, language: None };
    assert!(long.validate().is_err());
    let at_limit = SpellCheckRequest { text: Some("é".repeat(10_000)), words: None, language: None };
    assert!(at_limit.validate().is_ok());
    let many = SpellCheckRequest { text: None, words: Some(vec!["a".to_string(); 1_001]), language: None };
    assert!(many.validate().is_err());
}

#[test]
fn language_override_then_tenant_then_server_default() {
    let default = "en_US".to_string();
    assert_eq!(choose_language(&Some("de".to_string()), &Some("fr".to_string()), &default), "de");
    assert_eq!(choose_language(&None, &Some("fr".to_string()), &default), "fr");
    assert_eq!(choose_language(&None, &None, &default), "en_US");
}

#[test]
fn spellcheck_text_then_words_results() {
    let engine = fixture_engine();
    let req = SpellCheckRequest {
        text: Some("hello wrld".to_string()),
        words: Some(vec!["world".to_string(), "xyz".to_string()]),
        language: None,
    };
    let results = spellcheck_results(&engine, &req);
    let got: Vec<(&str, bool)> = results.iter().map(|r| (r.token.as_str(), r.valid)).collect();
    assert_eq!(got, vec![("hello", true), ("wrld", false), ("world", true), ("xyz", false)]);
    assert!(results[0].suggestions.is_empty());
    let one = token_result(&engine, "wrld");
    assert!(!one.valid);
    assert!(one.suggestions.contains(&"world".to_string()));
}

#[test]
fn spellcheck_positions_groups_misspellings_by_token() {
    let engine = fixture_engine();
    let req = SpellCheckRequest {
        text: Some("wrld hello wrld, helo".to_string()),
        words: Some(vec!["helo".to_string(), "zzz".to_string(), "hello".to_string()]),
        language: None,
    };
    let groups = spellcheck_positions(&engine, &req);
    let got: Vec<(&str, Vec<usize>)> =
        groups.iter().map(|g| (g.token.as_str(), g.positions.clone())).collect();
    assert_eq!(got, vec![("wrld", vec![0, 11]), ("helo", vec![17]), ("zzz", vec![])]);
}

#[test]
fn tokens_are_whitespace_free_and_in_order() {
    let text = "one  two\tthree\u{00a0}four";
    let tokens = tokenize(text);
    let words: Vec<&str> = tokens.iter().map(|t| t.token.as_str()).collect();
    assert_eq!(words, vec!["one", "two", "three", "four"]);
    for pair in tokens.windows(2) {
        assert!(pair[0].end_byte < pair[1].start_byte);
    }
    for t in &tokens {
        assert_eq!(&text[t.start_byte..t.end_byte], t.token);
    }
}

#[test]
fn health_check_returns_ok() {
    let report = health_report(&HealthQuery { verbose: None }, 12, 34);
    assert_eq!(report.status, "ok");
    assert_eq!(report.uptime_seconds, None);
    assert_eq!(report.request_count, None);
    let verbose = health_report(&HealthQuery { verbose: Some(true) }, 12, 34);
    assert_eq!(verbose.uptime_seconds, Some(12));
    assert_eq!(verbose.request_count, Some(34));
}

#[test]
fn key_requests_need_a_label_a_tenant_role_and_a_future_expiry() {
    assert!(validate_key_request("ci", Role::Standard, None, 100).is_ok());
    assert!(validate_key_request("ci", Role::Admin, Some(101), 100).is_ok());
    assert!(matches!(validate_key_request("", Role::Admin, None, 100), Err(AppError::Validation(_))));
    assert!(validate_key_request(&"x".repeat(101), Role::Admin, None, 100).is_err());
    assert!(validate_key_request(&"é".repeat(100), Role::Admin, None, 100).is_ok());
    assert!(validate_key_request("ci", Role::Platform, None, 100).is_err());
    assert!(validate_key_request("ci", Role::Standard, Some(100), 100).is_err());
}

#[test]
fn tenant_names_and_origins_follow_their_rules() {
    assert!(validate_tenant_name("Acme").is_ok());
    assert!(validate_tenant_name("").is_err());
    assert!(validate_tenant_name(&"n".repeat(201)).is_err());
    assert!(validate_origin("https://app.example.com").is_ok());
    assert!(validate_origin("http://localhost:5173").is_ok());
    assert!(validate_origin("ftp://example.com").is_err());
    assert!(validate_origin("https://").is_err());
    assert!(validate_origin("https://example.com/path").is_err());
}
