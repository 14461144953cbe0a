use rustspell_server::cli::{confirm_interactive, output_text, parse_args, OutputFormat};

#[test]
fn parse_args_defaults() {
    let opts = parse_args(&[]).unwrap();
    assert!(!opts.yes);
    assert_eq!(opts.format, OutputFormat::Human);
}

#[test]
fn parse_args_yes() {
    let opts = parse_args(&["--yes".to_string()]).unwrap();
    assert!(opts.yes);
}

#[test]
fn parse_args_json() {
    let opts = parse_args(&["--json".to_string()]).unwrap();
    assert_eq!(opts.format, OutputFormat::Json);
}

#[test]
fn parse_args_quiet() {
    let opts = parse_args(&["--quiet".to_string()]).unwrap();
    assert_eq!(opts.format, OutputFormat::Quiet);
}

#[test]
fn parse_args_rejects_json_and_quiet() {
    let err = parse_args(&["--json".to_string(), "--quiet".to_string()]).unwrap_err();
    assert!(err.contains("mutually exclusive"), "{err}");
}

#[test]
fn parse_args_rejects_unknown() {
    let err = parse_args(&["--foo".to_string()]).unwrap_err();
    assert!(err.contains("unknown argument"), "{err}");
}

#[test]
fn parse_args_combines_yes_with_a_format_and_names_the_bad_flag() {
    let opts = parse_args(&["--quiet".to_string(), "--yes".to_string()]).unwrap();
    assert!(opts.yes);
    assert_eq!(opts.format, OutputFormat::Quiet);
    assert_eq!(parse_args(&["--yes".to_string(), "-y".to_string()]).unwrap_err(), "unknown argument: -y");
    // A repeated format flag is refused like two different ones.
    assert!(parse_args(&["--json".to_string(), "--json".to_string()]).is_err());
}

#[test]
fn confirm_accepts_yes() {
    confirm_interactive("yes\n").unwrap();
}

#[test]
fn confirm_rejects_no() {
    assert!(confirm_interactive("no\n").is_err());
}

#[test]
fn confirm_trims_and_ignores_ascii_case() {
    assert!(confirm_interactive("  Y \r\n").is_ok());
    assert!(confirm_interactive("YeS").is_ok());
    assert!(confirm_interactive("").is_err());
    assert!(confirm_interactive("yess").is_err());
    assert_eq!(confirm_interactive("nope").unwrap_err(), "bootstrap platform key reset cancelled");
}

#[test]
fn print_human_includes_key() {
    let s = output_text(OutputFormat::Human, "rsk_test");
    assert!(s.contains("rsk_test"));
    assert!(s.contains("New bootstrap platform API key"));
}

#[test]
fn print_json_is_structured() {
    let s = output_text(OutputFormat::Json, "rsk_test");
    assert_eq!(s.trim(), r#"{"platform_key":"rsk_test"}"#);
}

#[test]
fn print_quiet_is_raw() {
    let s = output_text(OutputFormat::Quiet, "rsk_test");
    assert_eq!(s.trim(), "rsk_test");
}

#[test]
fn print_json_escapes_the_key() {
    let s = output_text(OutputFormat::Json, "a\"b");
    assert_eq!(s, r#"{"platform_key":"a\"b"}"#);
}

#[test]
fn print_json_escapes_control_chars() {
    let s = output_text(OutputFormat::Json, "a\u{1}\n\\");
    assert_eq!(s, "{\"platform_key\":\"a\\u0001\\n\\\\\"}");
}
