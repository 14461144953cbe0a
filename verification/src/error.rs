//! The service's error kinds and the RFC 7807 problem-details fields each one
//! renders: HTTP status, documentation link, title, detail and `Retry-After`.

use vstd::prelude::*;

use crate::text::{chars_of, push_all};

verus! {

broadcast use vstd::string::group_string_axioms;

/// Application-wide error kinds.
#[derive(Debug)]
pub enum AppError {
    /// The request body failed validation; carries the rule's message.
    Validation(String),
    /// The request body was not acceptable JSON; carries the parser's message.
    JsonRejection(String),
    DictionaryDownload(String),
    DictionaryParse(String),
    Internal(String),
    Unauthorized,
    Forbidden,
    RateLimited { retry_after_secs: u64 },
    NotFound,
    QuotaExceeded,
    UnsupportedLanguage(String),
    InvalidDateRange(String),
}

/// Where every problem type is documented.
pub open spec fn docs_base() -> Seq<char> {
    "https://github.com/btafoya/rustspell-server/blob/main/docs/errors/"@
}

/// HTTP status of each kind.
pub open spec fn status_of(e: AppError) -> u16 {
    match e {
        AppError::Validation(_) | AppError::JsonRejection(_) => 400,
        AppError::DictionaryDownload(_) | AppError::DictionaryParse(_) => 503,
        AppError::Internal(_) => 500,
        AppError::Unauthorized => 401,
        AppError::Forbidden => 403,
        AppError::RateLimited { .. } => 429,
        AppError::NotFound => 404,
        AppError::QuotaExceeded => 429,
        AppError::UnsupportedLanguage(_) => 400,
        AppError::InvalidDateRange(_) => 400,
    }
}

/// Documentation slug of each kind; also the `error_slug` usage rows carry.
pub open spec fn slug_of(e: AppError) -> Seq<char> {
    match e {
        AppError::Validation(_) => "validation-error"@,
        AppError::JsonRejection(_) => "invalid-json"@,
        AppError::DictionaryDownload(_) => "dictionary-download-error"@,
        AppError::DictionaryParse(_) => "dictionary-parse-error"@,
        AppError::Internal(_) => "internal-error"@,
        AppError::Unauthorized => "unauthorized"@,
        AppError::Forbidden => "forbidden"@,
        AppError::RateLimited { .. } => "rate-limited"@,
        AppError::NotFound => "not-found"@,
        AppError::QuotaExceeded => "quota-exceeded"@,
        AppError::UnsupportedLanguage(_) => "unsupported-language"@,
        AppError::InvalidDateRange(_) => "invalid-date-range"@,
    }
}

/// Human-readable title of each kind.
pub open spec fn title_of(e: AppError) -> Seq<char> {
    match e {
        AppError::Validation(_) => "Validation error"@,
        AppError::JsonRejection(_) => "Invalid JSON"@,
        AppError::DictionaryDownload(_) => "Dictionary download error"@,
        AppError::DictionaryParse(_) => "Dictionary parse error"@,
        AppError::Internal(_) => "Internal server error"@,
        AppError::Unauthorized => "Unauthorized"@,
        AppError::Forbidden => "Forbidden"@,
        AppError::RateLimited { .. } => "Too many requests"@,
        AppError::NotFound => "Not found"@,
        AppError::QuotaExceeded => "Quota exceeded"@,
        AppError::UnsupportedLanguage(_) => "Unsupported language"@,
        AppError::InvalidDateRange(_) => "Invalid date range"@,
    }
}

/// The `detail` text of each kind (its display message).
pub open spec fn detail_of(e: AppError) -> Seq<char> {
    match e {
        AppError::Validation(_) => "validation error"@,
        AppError::JsonRejection(_) => "invalid request body"@,
        AppError::DictionaryDownload(m) => "dictionary download failed: "@ + m@,
        AppError::DictionaryParse(m) => "dictionary parse failed: "@ + m@,
        AppError::Internal(m) => "internal error: "@ + m@,
        AppError::Unauthorized => "missing or invalid API key"@,
        AppError::Forbidden => "insufficient permissions for this key"@,
        AppError::RateLimited { .. } => "too many failed authentication attempts"@,
        AppError::NotFound => "resource not found"@,
        AppError::QuotaExceeded => "tenant request quota exceeded"@,
        AppError::UnsupportedLanguage(m) => "unsupported language: "@ + m@,
        AppError::InvalidDateRange(m) => "invalid date range: "@ + m@,
    }
}

/// `prefix` followed by the chars of `m`.
fn prefixed(prefix: &str, m: &String) -> (s: String)
    ensures
        s@ == prefix@ + m@,
{
    let mut s = prefix.to_string();
    push_all(&mut s, &chars_of(m.as_str()));
    s
}

impl AppError {
    /// HTTP status code.
    pub fn status_code(&self) -> (r: u16)
        ensures
            r == status_of(*self),
    {
        match self {
            AppError::Validation(_) | AppError::JsonRejection(_) => 400,
            AppError::DictionaryDownload(_) | AppError::DictionaryParse(_) => 503,
            AppError::Internal(_) => 500,
            AppError::Unauthorized => 401,
            AppError::Forbidden => 403,
            AppError::RateLimited { .. } => 429,
            AppError::NotFound => 404,
            AppError::QuotaExceeded => 429,
            AppError::UnsupportedLanguage(_) => 400,
            AppError::InvalidDateRange(_) => 400,
        }
    }

    /// Documentation slug.
    pub fn slug(&self) -> (r: String)
        ensures
            r@ == slug_of(*self),
    {
        match self {
            AppError::Validation(_) => "validation-error".to_string(),
            AppError::JsonRejection(_) => "invalid-json".to_string(),
            AppError::DictionaryDownload(_) => "dictionary-download-error".to_string(),
            AppError::DictionaryParse(_) => "dictionary-parse-error".to_string(),
            AppError::Internal(_) => "internal-error".to_string(),
            AppError::Unauthorized => "unauthorized".to_string(),
            AppError::Forbidden => "forbidden".to_string(),
            AppError::RateLimited { .. } => "rate-limited".to_string(),
            AppError::NotFound => "not-found".to_string(),
            AppError::QuotaExceeded => "quota-exceeded".to_string(),
            AppError::UnsupportedLanguage(_) => "unsupported-language".to_string(),
            AppError::InvalidDateRange(_) => "invalid-date-range".to_string(),
        }
    }

    /// Problem type URI: the documentation page of the slug.
    pub fn problem_type(&self) -> (r: String)
        ensures
            r@ == docs_base() + slug_of(*self) + ".md"@,
    {
        let mut s = "https://github.com/btafoya/rustspell-server/blob/main/docs/errors/".to_string();
        push_all(&mut s, &chars_of(self.slug().as_str()));
        push_all(&mut s, &chars_of(".md"));
        s
    }

    /// Problem title.
    pub fn title(&self) -> (r: String)
        ensures
            r@ == title_of(*self),
    {
        match self {
            AppError::Validation(_) => "Validation error".to_string(),
            AppError::JsonRejection(_) => "Invalid JSON".to_string(),
            AppError::DictionaryDownload(_) => "Dictionary download error".to_string(),
            AppError::DictionaryParse(_) => "Dictionary parse error".to_string(),
            AppError::Internal(_) => "Internal server error".to_string(),
            AppError::Unauthorized => "Unauthorized".to_string(),
            AppError::Forbidden => "Forbidden".to_string(),
            AppError::RateLimited { .. } => "Too many requests".to_string(),
            AppError::NotFound => "Not found".to_string(),
            AppError::QuotaExceeded => "Quota exceeded".to_string(),
            AppError::UnsupportedLanguage(_) => "Unsupported language".to_string(),
            AppError::InvalidDateRange(_) => "Invalid date range".to_string(),
        }
    }

    /// Problem detail: the error's message.
    pub fn detail(&self) -> (r: String)
        ensures
            r@ == detail_of(*self),
    {
        match self {
            AppError::Validation(_) => "validation error".to_string(),
            AppError::JsonRejection(_) => "invalid request body".to_string(),
            AppError::DictionaryDownload(m) => prefixed("dictionary download failed: ", m),
            AppError::DictionaryParse(m) => prefixed("dictionary parse failed: ", m),
            AppError::Internal(m) => prefixed("internal error: ", m),
            AppError::Unauthorized => "missing or invalid API key".to_string(),
            AppError::Forbidden => "insufficient permissions for this key".to_string(),
            AppError::RateLimited { .. } => "too many failed authentication attempts".to_string(),
            AppError::NotFound => "resource not found".to_string(),
            AppError::QuotaExceeded => "tenant request quota exceeded".to_string(),
            AppError::UnsupportedLanguage(m) => prefixed("unsupported language: ", m),
            AppError::InvalidDateRange(m) => prefixed("invalid date range: ", m),
        }
    }

    /// Seconds for the `Retry-After` header: only a rate-limited answer has one.
    pub fn retry_after(&self) -> (r: Option<u64>)
        ensures
            r == (match *self {
                AppError::RateLimited { retry_after_secs } => Some(retry_after_secs),
                _ => None,
            }),
    {
        match self {
            AppError::RateLimited { retry_after_secs } => Some(*retry_after_secs),
            _ => None,
        }
    }
}

} // verus!
