use rustspell_server::error::AppError;

#[test]
fn quota_exceeded_and_rate_limited_are_distinct_429s() {
    let quota = AppError::QuotaExceeded;
    let rate_limited = AppError::RateLimited { retry_after_secs: 30 };
    assert_eq!(quota.status_code(), 429);
    assert_eq!(rate_limited.status_code(), 429);
    assert_ne!(quota.problem_type(), rate_limited.problem_type());
}

#[test]
fn problem_type_uses_documentation_uri() {
    // A validation error with no field messages.
    let err = AppError::Validation(String::new());
    assert!(err
        .problem_type()
        .starts_with("https://github.com/btafoya/rustspell-server/blob/main/docs/errors/"));
}

#[test]
fn validation_problem_type_names_its_slug() {
    let err = AppError::Validation("Either 'text' or 'words' must be provided".to_string());
    assert_eq!(
        err.problem_type(),
        "https://github.com/btafoya/rustspell-server/blob/main/docs/errors/validation-error.md"
    );
    assert_eq!(err.status_code(), 400);
    assert_eq!(err.title(), "Validation error");
    assert_eq!(err.detail(), "validation error");
}

#[test]
fn every_kind_renders_its_status_slug_title_and_detail() {
    let cases = vec![
        (AppError::JsonRejection("eof".to_string()), 400, "invalid-json", "Invalid JSON", "invalid request body".to_string()),
        (AppError::DictionaryDownload("timeout".to_string()), 503, "dictionary-download-error", "Dictionary download error", "dictionary download failed: timeout".to_string()),
        (AppError::DictionaryParse("bad".to_string()), 503, "dictionary-parse-error", "Dictionary parse error", "dictionary parse failed: bad".to_string()),
        (AppError::Internal("db".to_string()), 500, "internal-error", "Internal server error", "internal error: db".to_string()),
        (AppError::Unauthorized, 401, "unauthorized", "Unauthorized", "missing or invalid API key".to_string()),
        (AppError::Forbidden, 403, "forbidden", "Forbidden", "insufficient permissions for this key".to_string()),
        (AppError::RateLimited { retry_after_secs: 5 }, 429, "rate-limited", "Too many requests", "too many failed authentication attempts".to_string()),
        (AppError::NotFound, 404, "not-found", "Not found", "resource not found".to_string()),
        (AppError::QuotaExceeded, 429, "quota-exceeded", "Quota exceeded", "tenant request quota exceeded".to_string()),
        (AppError::UnsupportedLanguage("xx".to_string()), 400, "unsupported-language", "Unsupported language", "unsupported language: xx".to_string()),
        (AppError::InvalidDateRange("start must not be after end".to_string()), 400, "invalid-date-range", "Invalid date range", "invalid date range: start must not be after end".to_string()),
    ];
    for (err, status, slug, title, detail) in cases {
        assert_eq!(err.status_code(), status);
        assert_eq!(err.slug(), slug);
        assert_eq!(err.title(), title);
        assert_eq!(err.detail(), detail);
        assert!(err.problem_type().ends_with(&format!("/{slug}.md")));
    }
}

#[test]
fn only_rate_limited_carries_retry_after() {
    assert_eq!(AppError::RateLimited { retry_after_secs: 42 }.retry_after(), Some(42));
    assert_eq!(AppError::QuotaExceeded.retry_after(), None);
}
