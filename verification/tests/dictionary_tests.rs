use rustspell_server::config::{load, EnvValue, EnvValues};
use rustspell_server::dictionary::{
    after_attempt, cache_file_names, dictionary_urls, is_language_code, retry_delay_ms, AttemptOutcome,
    DictionaryManager, DownloadStep, RETRY_ATTEMPTS,
};

fn manager(hours: &str) -> DictionaryManager {
    let env = EnvValues {
        port: EnvValue::Absent,
        metrics_port: EnvValue::Absent,
        log_level: EnvValue::Absent,
        language: EnvValue::Absent,
        dictionary_url: EnvValue::Present("https://dict.example/base".to_string()),
        refresh_interval_hours: EnvValue::Present(hours.to_string()),
        db_url: EnvValue::Absent,
        auth_rate_limit_max: EnvValue::Absent,
        auth_rate_limit_window_seconds: EnvValue::Absent,
        auth_rate_limit_cooldown_seconds: EnvValue::Absent,
        dictionary_dir: "/var/cache/dicts".to_string(),
        db_path: "/tmp/db".to_string(),
    };
    DictionaryManager::new(&load(&env).unwrap())
}

#[test]
fn dictionary_files_are_named_after_the_language() {
    let (aff, dic) = dictionary_urls("https://dict.example/base", "en_US");
    assert_eq!(aff, "https://dict.example/base/en_US.aff");
    assert_eq!(dic, "https://dict.example/base/en_US.dic");
    assert_eq!(cache_file_names("fr"), ("fr.aff".to_string(), "fr.dic".to_string()));
}

#[test]
fn detects_missing_or_stale_files_as_not_fresh() {
    let m = manager("1");
    assert_eq!(m.refresh_interval_secs, 3_600);
    assert_eq!(m.base_url, "https://dict.example/base");
    let hour_ns: u128 = 3_600 * 1_000_000_000;
    assert!(m.is_fresh(Some(0), Some(hour_ns - 1)));
    assert!(!m.is_fresh(Some(0), Some(hour_ns)));
    assert!(!m.is_fresh(None, Some(0)));
    assert!(!m.is_fresh(Some(0), None));
}

#[test]
fn transient_failures_retry_with_doubling_backoff_then_fail() {
    let delays: Vec<u64> = (0..4).map(retry_delay_ms).collect();
    assert_eq!(delays, vec![250, 500, 1_000, 2_000]);
    for attempt in 0..RETRY_ATTEMPTS - 1 {
        match after_attempt(attempt, AttemptOutcome::Transient) {
            DownloadStep::RetryAfter { delay_ms } => assert_eq!(delay_ms, 250 << attempt),
            _ => panic!("transient failures are retried"),
        }
    }
    assert!(matches!(after_attempt(RETRY_ATTEMPTS - 1, AttemptOutcome::Transient), DownloadStep::Fail));
    assert!(matches!(after_attempt(0, AttemptOutcome::Permanent), DownloadStep::Fail));
    assert!(matches!(after_attempt(2, AttemptOutcome::Succeeded), DownloadStep::Done));
}

#[test]
fn language_codes_never_name_paths() {
    assert!(is_language_code("en_US"));
    assert!(is_language_code("sr-Latn"));
    assert!(!is_language_code(""));
    assert!(!is_language_code("../../etc/passwd"));
    assert!(!is_language_code("en/US"));
    assert!(!is_language_code("en.US"));
}
