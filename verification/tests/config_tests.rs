use rustspell_server::config::{
    canonical_ip, load, mask_ip, parse_uint, split_cidr_spec, split_list, Cidr, CidrError,
    EnvValue, EnvValues, IntError, IpValue, DEFAULT_METRICS_PORT, DEFAULT_PORT,
    DEFAULT_REFRESH_INTERVAL_HOURS,
};

fn v4(a: u8, b: u8, c: u8, d: u8) -> IpValue {
    IpValue::V4(u32::from_be_bytes([a, b, c, d]))
}

fn v6(groups: [u16; 8]) -> IpValue {
    let mut v: u128 = 0;
    for g in groups {
        v = (v << 16) | g as u128;
    }
    IpValue::V6(v)
}

fn empty_env() -> EnvValues {
    EnvValues {
        port: EnvValue::Absent,
        metrics_port: EnvValue::Absent,
        log_level: EnvValue::Absent,
        language: EnvValue::Absent,
        dictionary_url: EnvValue::Absent,
        refresh_interval_hours: EnvValue::Absent,
        db_url: EnvValue::Absent,
        auth_rate_limit_max: EnvValue::Absent,
        auth_rate_limit_window_seconds: EnvValue::Absent,
        auth_rate_limit_cooldown_seconds: EnvValue::Absent,
        dictionary_dir: "./data".to_string(),
        db_path: "./data/rustspell.db".to_string(),
    }
}

fn load_err(env: &EnvValues) -> String {
    match load(env) {
        Err(e) => e,
        Ok(_) => panic!("expected a configuration error"),
    }
}

#[test]
fn defaults_are_valid() {
    let config = load(&empty_env()).expect("load should succeed");
    assert_eq!(config.port, DEFAULT_PORT);
    assert_eq!(config.metrics_port, DEFAULT_METRICS_PORT);
    assert_eq!(config.log_level, "info");
    assert_eq!(config.language, "en_US");
    assert_eq!(config.refresh_interval_hours, DEFAULT_REFRESH_INTERVAL_HOURS);
    assert_eq!(
        config.dictionary_url,
        "https://raw.githubusercontent.com/LibreOffice/dictionaries/master/en"
    );
    assert!(config.dictionary_admin_cidrs.is_empty());
    assert!(config.trusted_proxies.is_empty());
}

#[test]
fn rejects_equal_ports() {
    let mut env = empty_env();
    env.port = EnvValue::Present("3000".to_string());
    env.metrics_port = EnvValue::Present("3000".to_string());
    let err = load_err(&env);
    assert!(err.contains("must be different"));
    assert_eq!(err, "RUSTSPELL_PORT (3000) and RUSTSPELL_METRICS_PORT (3000) must be different");
}

#[test]
fn rejects_non_postgres_db_url() {
    let mut env = empty_env();
    env.db_url = EnvValue::Present("mysql://localhost/db".to_string());
    let err = load_err(&env);
    assert!(err.contains("RUSTSPELL_DB_URL"));
}

#[test]
fn accepts_postgres_urls_and_ignores_an_empty_one() {
    let mut env = empty_env();
    env.db_url = EnvValue::Present("postgresql://db/app".to_string());
    assert_eq!(load(&env).unwrap().db_url.as_deref(), Some("postgresql://db/app"));
    env.db_url = EnvValue::Present(String::new());
    assert_eq!(load(&env).unwrap().db_url, None);
}

#[test]
fn integer_settings_report_the_variable_and_reason() {
    let mut env = empty_env();
    env.port = EnvValue::Present("70000".to_string());
    assert_eq!(load_err(&env), "invalid RUSTSPELL_PORT: number too large to fit in target type");
    env.port = EnvValue::Present("+8080".to_string());
    assert_eq!(load(&env).unwrap().port, 8080);
    env.auth_rate_limit_max = EnvValue::Present("ten".to_string());
    assert_eq!(load_err(&env), "invalid RUSTSPELL_AUTH_RATE_LIMIT_MAX: invalid digit found in string");
    env.auth_rate_limit_max = EnvValue::NotUnicode("environment variable was not valid unicode".to_string());
    assert_eq!(
        load_err(&env),
        "failed to read RUSTSPELL_AUTH_RATE_LIMIT_MAX: environment variable was not valid unicode"
    );
}

#[test]
fn parse_uint_follows_str_parse() {
    assert_eq!(parse_uint("", 255), Err(IntError::Empty));
    assert_eq!(parse_uint("+", 255), Err(IntError::InvalidDigit));
    assert_eq!(parse_uint("-1", 255), Err(IntError::InvalidDigit));
    assert_eq!(parse_uint("256", 255), Err(IntError::PosOverflow));
    assert_eq!(parse_uint("0255", 255), Ok(255));
    assert_eq!(parse_uint("18446744073709551615", u64::MAX), Ok(u64::MAX));
    assert_eq!(parse_uint("18446744073709551616", u64::MAX), Err(IntError::PosOverflow));
}

#[test]
fn comma_separated_lists_are_trimmed_and_skip_empty_entries() {
    assert_eq!(split_list(" 172.17.0.0/16 , ::1 "), vec!["172.17.0.0/16".to_string(), "::1".to_string()]);
    assert_eq!(split_list(",, a ,"), vec!["a".to_string()]);
    assert!(split_list("").is_empty());
}

#[test]
fn cidr_specs_split_at_the_first_slash() {
    assert_eq!(split_cidr_spec("10.0.0.0/8"), ("10.0.0.0".to_string(), Some("8".to_string())));
    assert_eq!(split_cidr_spec("::1"), ("::1".to_string(), None));
    assert_eq!(split_cidr_spec("a/b/c"), ("a".to_string(), Some("b/c".to_string())));
}

#[test]
fn cidr_matches_within_range_and_rejects_outside() {
    let net = Cidr::from_parts(v4(10, 20, 0, 0), Some("24")).unwrap();
    assert!(net.contains(v4(10, 20, 0, 1)));
    assert!(net.contains(v4(10, 20, 0, 255)));
    assert!(!net.contains(v4(10, 20, 1, 1)));
    assert!(!net.contains(v4(10, 0, 0, 1)));
}

#[test]
fn cidr_ignores_host_bits_in_the_spec() {
    let sloppy = Cidr::from_parts(v4(10, 20, 0, 7), Some("24")).unwrap();
    let clean = Cidr::from_parts(v4(10, 20, 0, 0), Some("24")).unwrap();
    assert_eq!(sloppy, clean);
    assert!(sloppy.contains(v4(10, 20, 0, 1)));
}

#[test]
fn bare_address_is_a_host_route() {
    let host = Cidr::from_parts(v4(203, 0, 113, 9), None).unwrap();
    assert!(host.contains(v4(203, 0, 113, 9)));
    assert!(!host.contains(v4(203, 0, 113, 10)));
}

#[test]
fn zero_prefix_matches_everything_of_its_family() {
    let all_v4 = Cidr::from_parts(v4(0, 0, 0, 0), Some("0")).unwrap();
    assert!(all_v4.contains(v4(1, 2, 3, 4)));
    assert!(all_v4.contains(v4(203, 0, 113, 9)));
    // A v6 address stays outside a v4 network.
    assert!(!all_v4.contains(v6([0x2001, 0xdb8, 0, 0, 0, 0, 0, 1])));

    let all_v6 = Cidr::from_parts(v6([0; 8]), Some("0")).unwrap();
    assert!(all_v6.contains(v6([0x2001, 0xdb8, 0, 0, 0, 0, 0, 1])));
    assert!(!all_v6.contains(v4(1, 2, 3, 4)));
}

#[test]
fn full_width_prefixes_do_not_overflow() {
    let host4 = Cidr::from_parts(v4(192, 0, 2, 1), Some("32")).unwrap();
    assert!(host4.contains(v4(192, 0, 2, 1)));
    assert!(!host4.contains(v4(192, 0, 2, 2)));

    let host6 = Cidr::from_parts(v6([0x2001, 0xdb8, 0, 0, 0, 0, 0, 1]), Some("128")).unwrap();
    assert!(host6.contains(v6([0x2001, 0xdb8, 0, 0, 0, 0, 0, 1])));
    assert!(!host6.contains(v6([0x2001, 0xdb8, 0, 0, 0, 0, 0, 2])));
}

#[test]
fn v4_mapped_v6_peer_matches_a_v4_network() {
    // ::ffff:10.0.0.5, what a dual-stack listener reports for an IPv4 client.
    let net = Cidr::from_parts(v4(10, 0, 0, 0), Some("8")).unwrap();
    assert!(net.contains(v6([0, 0, 0, 0, 0, 0xffff, 0x0a00, 0x0005])));
}

#[test]
fn v4_compatible_v6_is_not_mistaken_for_v4() {
    // ::1 is not 0.0.0.1.
    let net = Cidr::from_parts(v4(0, 0, 0, 0), Some("8")).unwrap();
    assert!(!net.contains(v6([0, 0, 0, 0, 0, 0, 0, 1])));
}

#[test]
fn rejects_oversized_prefix() {
    assert!(Cidr::from_parts(v4(10, 0, 0, 0), Some("33")).is_err());
    assert!(Cidr::from_parts(v6([0x2001, 0xdb8, 0, 0, 0, 0, 0, 0]), Some("129")).is_err());
    assert!(Cidr::from_parts(v4(10, 0, 0, 0), Some("abc")).is_err());
    // "not-an-ip/8": the address part is not an IP address; only the
    // split happens here, the address itself is read by the caller.
    assert_eq!(split_cidr_spec("not-an-ip/8"), ("not-an-ip".to_string(), Some("8".to_string())));
}

#[test]
fn cidr_canonical_form_and_masks() {
    assert_eq!(canonical_ip(v6([0, 0, 0, 0, 0, 0xffff, 0x0a00, 0x0005])), v4(10, 0, 0, 5));
    assert_eq!(canonical_ip(v6([0, 0, 0, 0, 0, 0, 0, 1])), v6([0, 0, 0, 0, 0, 0, 0, 1]));
    assert_eq!(mask_ip(v4(10, 20, 30, 40), 16), v4(10, 20, 0, 0));
}

#[test]
fn cidr_errors_name_the_prefix_problem() {
    assert_eq!(
        Cidr::from_parts(v4(10, 0, 0, 0), Some("33")),
        Err(CidrError::PrefixTooLong { prefix: 33, max: 32 })
    );
    assert_eq!(
        Cidr::from_parts(v6([0x2001, 0xdb8, 0, 0, 0, 0, 0, 0]), Some("129")),
        Err(CidrError::PrefixTooLong { prefix: 129, max: 128 })
    );
    assert_eq!(Cidr::from_parts(v4(10, 0, 0, 0), Some("abc")), Err(CidrError::InvalidPrefix));
    assert_eq!(Cidr::from_parts(v4(10, 0, 0, 0), Some("256")), Err(CidrError::InvalidPrefix));
}

#[test]
fn cidr_lists_default_to_empty() {
    let config = load(&empty_env()).expect("load should succeed");
    assert!(config.dictionary_admin_cidrs.is_empty());
    assert!(config.trusted_proxies.is_empty());
}
