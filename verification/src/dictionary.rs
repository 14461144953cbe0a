//! Where a language's Hunspell files come from and are cached, when the
//! cache is stale, and how a failed download is retried.

use vstd::prelude::*;

use crate::config::Config;
use crate::text::{chars_of, push_all};

verus! {

broadcast use vstd::string::group_string_axioms;

/// Download attempts before giving up on a transient failure.
pub const RETRY_ATTEMPTS: u32 = 5;

/// Backoff before the first retry; it doubles on each further one.
pub const RETRY_BASE_MS: u64 = 250;

/// `base`, `/`, the language and an extension.
pub open spec fn file_url(base: Seq<char>, language: Seq<char>, ext: Seq<char>) -> Seq<char> {
    base + "/"@ + language + ext
}

fn join_url(base: &str, language: &str, ext: &str) -> (s: String)
    ensures
        s@ == file_url(base@, language@, ext@),
{
    let mut s = base.to_string();
    push_all(&mut s, &chars_of("/"));
    push_all(&mut s, &chars_of(language));
    push_all(&mut s, &chars_of(ext));
    s
}

/// The URLs of a language's `.aff` and `.dic` files under `base_url`.
pub fn dictionary_urls(base_url: &str, language: &str) -> (r: (String, String))
    ensures
        r.0@ == file_url(base_url@, language@, ".aff"@),
        r.1@ == file_url(base_url@, language@, ".dic"@),
{
    (join_url(base_url, language, ".aff"), join_url(base_url, language, ".dic"))
}

/// A char a language code may hold: an ASCII letter or digit, `_` or `-`.
pub open spec fn code_char(c: char) -> bool {
    ('a' <= c <= 'z') || ('A' <= c <= 'Z') || ('0' <= c <= '9') || c == '_' || c == '-'
}

/// A language code safe to name a cache directory, its files and the
/// download URLs: at least one char, and only `code_char`s (so never a
/// path separator or a dot).
pub open spec fn language_code_ok(s: Seq<char>) -> bool {
    s.len() > 0 && forall|i: int| 0 <= i < s.len() ==> code_char(#[trigger] s[i])
}

/// Whether `language` may be looked up on disk and downloaded.
pub fn is_language_code(language: &str) -> (r: bool)
    ensures
        r == language_code_ok(language@),
{
    let cs = chars_of(language);
    if cs.len() == 0 {
        return false;
    }
    let mut i: usize = 0;
    while i < cs.len()
        invariant
            i <= cs.len(),
            cs@ == language@,
            forall|k: int| 0 <= k < i ==> code_char(#[trigger] cs@[k]),
        decreases cs.len() - i,
    {
        let c = cs[i];
        if !(('a' <= c && c <= 'z') || ('A' <= c && c <= 'Z') || ('0' <= c && c <= '9') || c == '_'
            || c == '-') {
            assert(!code_char(language@[i as int]));
            return false;
        }
        i = i + 1;
    }
    true
}

/// The cached file names of a language: `{language}.aff`, `{language}.dic`.
pub fn cache_file_names(language: &str) -> (r: (String, String))
    ensures
        r.0@ == language@ + ".aff"@,
        r.1@ == language@ + ".dic"@,
{
    let mut a = language.to_string();
    push_all(&mut a, &chars_of(".aff"));
    let mut d = language.to_string();
    push_all(&mut d, &chars_of(".dic"));
    (a, d)
}

/// Download, cache and refresh settings for dictionary files.
#[derive(Debug)]
pub struct DictionaryManager {
    pub base_url: String,
    pub dictionary_dir: String,
    /// Re-download when a cached file is at least this old.
    pub refresh_interval_secs: u64,
}

impl DictionaryManager {
    pub fn new(config: &Config) -> (m: DictionaryManager)
        requires
            config.refresh_interval_hours * 3600 <= u64::MAX,
        ensures
            m.base_url@ == config.dictionary_url@,
            m.dictionary_dir@ == config.dictionary_dir@,
            m.refresh_interval_secs == config.refresh_interval_hours * 3600,
    {
        DictionaryManager {
            base_url: config.dictionary_url.clone(),
            dictionary_dir: config.dictionary_dir.clone(),
            refresh_interval_secs: config.refresh_interval_hours * 3600,
        }
    }

    /// Both cached files exist and each is younger than the refresh
    /// interval (ages in nanoseconds; `None` for a missing file or one whose
    /// age could not be read).
    pub fn is_fresh(&self, aff_age_ns: Option<u128>, dic_age_ns: Option<u128>) -> (r: bool)
        ensures
            r == (aff_age_ns is Some && dic_age_ns is Some && aff_age_ns->0 < self.refresh_interval_secs
                * 1_000_000_000 && dic_age_ns->0 < self.refresh_interval_secs * 1_000_000_000),
    {
        let threshold: u128 = self.refresh_interval_secs as u128 * 1_000_000_000;
        match (aff_age_ns, dic_age_ns) {
            (Some(a), Some(d)) => a < threshold && d < threshold,
            _ => false,
        }
    }
}

/// How one download attempt ended.
#[derive(Debug)]
pub enum AttemptOutcome {
    Succeeded,
    /// A connection failure or a timeout: worth retrying.
    Transient,
    /// Anything else (an HTTP error status, say): not retried.
    Permanent,
}

/// What to do after an attempt.
#[derive(Debug)]
pub enum DownloadStep {
    Done,
    Fail,
    RetryAfter { delay_ms: u64 },
}

pub open spec fn pow2(n: nat) -> nat
    decreases n,
{
    if n == 0 {
        1
    } else {
        2 * pow2((n - 1) as nat)
    }
}

/// The backoff after failed attempt `attempt` (counting from 0).
pub fn retry_delay_ms(attempt: u32) -> (d: u64)
    requires
        attempt < RETRY_ATTEMPTS,
    ensures
        d == RETRY_BASE_MS * pow2(attempt as nat),
{
    let mut d: u64 = RETRY_BASE_MS;
    let mut k: u32 = 0;
    while k < attempt
        invariant
            k <= attempt < 5,
            d == RETRY_BASE_MS * pow2(k as nat),
        decreases attempt - k,
    {
        proof {
            assert(pow2((k + 1) as nat) == 2 * pow2(k as nat));
            assert(pow2(k as nat) <= 16) by {
                assert(pow2(0) == 1);
                assert(pow2(1) == 2);
                assert(pow2(2) == 4);
                assert(pow2(3) == 8);
                assert(pow2(4) == 16);
            }
        }
        d = d * 2;
        k = k + 1;
    }
    d
}

/// The retry policy: success ends, a permanent failure fails at once, and a
/// transient one is retried after an exponential backoff until the last of
/// the attempts.
pub fn after_attempt(attempt: u32, outcome: AttemptOutcome) -> (s: DownloadStep)
    requires
        attempt < RETRY_ATTEMPTS,
    ensures
        s == after_step_spec(attempt, outcome),
{
    match outcome {
        AttemptOutcome::Succeeded => DownloadStep::Done,
        AttemptOutcome::Permanent => DownloadStep::Fail,
        AttemptOutcome::Transient => {
            if attempt == RETRY_ATTEMPTS - 1 {
                DownloadStep::Fail
            } else {
                DownloadStep::RetryAfter { delay_ms: retry_delay_ms(attempt) }
            }
        },
    }
}

/// Law: the policy never asks for more than the fixed number of attempts,
/// and the backoff doubles from one retry to the next.
pub proof fn lemma_retry_policy_bounded(attempt: u32)
    requires
        attempt < RETRY_ATTEMPTS,
    ensures
        attempt + 1 == RETRY_ATTEMPTS ==> forall|o: AttemptOutcome| !(#[trigger] after_step_spec(attempt, o) is RetryAfter),
        attempt + 1 < RETRY_ATTEMPTS ==> RETRY_BASE_MS * pow2((attempt + 1) as nat) == 2 * (RETRY_BASE_MS
            * pow2(attempt as nat)),
{
}

/// The step `after_attempt` takes, as a spec.
pub open spec fn after_step_spec(attempt: u32, o: AttemptOutcome) -> DownloadStep {
    match o {
        AttemptOutcome::Succeeded => DownloadStep::Done,
        AttemptOutcome::Permanent => DownloadStep::Fail,
        AttemptOutcome::Transient => if attempt + 1 == RETRY_ATTEMPTS {
            DownloadStep::Fail
        } else {
            DownloadStep::RetryAfter { delay_ms: (RETRY_BASE_MS * pow2(attempt as nat)) as u64 }
        },
    }
}

} // verus!
