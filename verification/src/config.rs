//! Runtime configuration: integer settings read from environment values,
//! their defaults and cross-checks, and the IP networks (CIDR) that gate the
//! dictionary-admin endpoint and name trusted proxies.

use vstd::prelude::*;

use crate::text::{chars_of, digit_value, is_digit, push_all, starts_with, trim, trim_chars};

verus! {

broadcast use vstd::string::group_string_axioms;

pub const DEFAULT_PORT: u16 = 3000;

pub const DEFAULT_METRICS_PORT: u16 = 9090;

pub const DEFAULT_REFRESH_INTERVAL_HOURS: u64 = 24;

pub const DEFAULT_AUTH_RATE_LIMIT_MAX: u32 = 10;

pub const DEFAULT_AUTH_RATE_LIMIT_WINDOW_SECONDS: u64 = 60;

pub const DEFAULT_AUTH_RATE_LIMIT_COOLDOWN_SECONDS: u64 = 60;

/// Default log level filter.
pub open spec fn default_log_level() -> Seq<char> {
    "info"@
}

/// Default dictionary language.
pub open spec fn default_language() -> Seq<char> {
    "en_US"@
}

/// Default base URL for raw `.aff`/`.dic` dictionary files.
pub open spec fn default_dictionary_url() -> Seq<char> {
    "https://raw.githubusercontent.com/LibreOffice/dictionaries/master/en"@
}

pub fn default_language_string() -> (s: String)
    ensures
        s@ == default_language(),
{
    "en_US".to_string()
}

// ---- Unsigned integers, as `str::parse` reads them --------------------------------

/// Why `str::parse` refused an unsigned integer.
#[derive(Debug, Clone, Copy, PartialEq, Eq, Structural)]
pub enum IntError {
    Empty,
    InvalidDigit,
    PosOverflow,
}

/// The digits of `d`, scanned left to right from the value `acc`: the first
/// non-digit is an invalid digit, and passing `max` is an overflow.
pub open spec fn scan_digits(d: Seq<char>, acc: int, max: int) -> Result<int, IntError>
    decreases d.len(),
{
    if d.len() == 0 {
        Ok(acc)
    } else if !is_digit(d[0]) {
        Err(IntError::InvalidDigit)
    } else if acc * 10 + digit_value(d[0]) > max {
        Err(IntError::PosOverflow)
    } else {
        scan_digits(d.drop_first(), acc * 10 + digit_value(d[0]), max)
    }
}

/// What `str::parse` gives for an unsigned type whose largest value is
/// `max`: an optional `+`, then decimal digits.
pub open spec fn parse_unsigned(s: Seq<char>, max: int) -> Result<int, IntError> {
    if s.len() == 0 {
        Err(IntError::Empty)
    } else if (s[0] == '+' || s[0] == '-') && s.len() == 1 {
        Err(IntError::InvalidDigit)
    } else if s[0] == '+' {
        scan_digits(s.drop_first(), 0, max)
    } else {
        scan_digits(s, 0, max)
    }
}

/// The message `ParseIntError` displays for each kind.
pub open spec fn int_error_text(e: IntError) -> Seq<char> {
    match e {
        IntError::Empty => "cannot parse integer from empty string"@,
        IntError::InvalidDigit => "invalid digit found in string"@,
        IntError::PosOverflow => "number too large to fit in target type"@,
    }
}

pub fn int_error_message(e: IntError) -> (s: String)
    ensures
        s@ == int_error_text(e),
{
    match e {
        IntError::Empty => "cannot parse integer from empty string".to_string(),
        IntError::InvalidDigit => "invalid digit found in string".to_string(),
        IntError::PosOverflow => "number too large to fit in target type".to_string(),
    }
}

/// `str::parse` for an unsigned integer no larger than `max`.
pub fn parse_uint(s: &str, max: u64) -> (r: Result<u64, IntError>)
    requires
        max >= 9,
    ensures
        match parse_unsigned(s@, max as int) {
            Ok(v) => r == Ok::<u64, IntError>(v as u64) && 0 <= v <= max,
            Err(e) => r == Err::<u64, IntError>(e),
        },
{
    let cs = chars_of(s);
    if cs.len() == 0 {
        return Err(IntError::Empty);
    }
    if (cs[0] == '+' || cs[0] == '-') && cs.len() == 1 {
        return Err(IntError::InvalidDigit);
    }
    let start: usize = if cs[0] == '+' {
        1
    } else {
        0
    };
    let ghost d = if cs@[0] == '+' {
        cs@.drop_first()
    } else {
        cs@
    };
    assert(cs@.skip(start as int) =~= d);
    assert(parse_unsigned(s@, max as int) == scan_digits(d, 0, max as int));
    let mut acc: u64 = 0;
    let mut i: usize = start;
    while i < cs.len()
        invariant
            start <= i <= cs.len(),
            acc <= max,
            max >= 9,
            parse_unsigned(s@, max as int) == scan_digits(d, 0, max as int),
            scan_digits(d, 0, max as int) == scan_digits(cs@.skip(i as int), acc as int, max as int),
        decreases cs.len() - i,
    {
        let c = cs[i];
        assert(cs@.skip(i as int)[0] == c);
        assert(cs@.skip(i as int).drop_first() =~= cs@.skip(i + 1));
        if !('0' <= c && c <= '9') {
            assert(!is_digit(cs@.skip(i as int)[0]));
            return Err(IntError::InvalidDigit);
        }
        let dv = (c as u32 - '0' as u32) as u64;
        if acc > (max - dv) / 10 {
            assert(acc * 10 + dv > max) by (nonlinear_arith)
                requires
                    acc > (max - dv) / 10,
                    dv <= 9,
                    dv <= max,
            ;
            return Err(IntError::PosOverflow);
        }
        assert(acc * 10 + dv <= max) by (nonlinear_arith)
            requires
                acc <= (max - dv) / 10,
                dv <= 9,
                dv <= max,
        ;
        acc = acc * 10 + dv;
        i = i + 1;
    }
    assert(cs@.skip(i as int) =~= Seq::<char>::empty());
    Ok(acc)
}

} // verus!

verus! {

// ---- IP networks ------------------------------------------------------------------

/// An IP address as its number: IPv4 in 32 bits, IPv6 in 128.
#[derive(Debug, Clone, Copy, PartialEq, Eq, Structural)]
pub enum IpValue {
    V4(u32),
    V6(u128),
}

/// An IPv4-mapped IPv6 address (`::ffff:a.b.c.d`) is the IPv4 address it
/// carries; an IPv4-compatible one (`::a.b.c.d`, such as `::1`) is not.
pub open spec fn canonical(ip: IpValue) -> IpValue {
    match ip {
        IpValue::V6(v) => if v >> 32u128 == 0xffffu128 {
            IpValue::V4((v & 0xffff_ffffu128) as u32)
        } else {
            IpValue::V6(v)
        },
        IpValue::V4(v) => IpValue::V4(v),
    }
}

/// Collapses an IPv4-mapped IPv6 address to its IPv4 form, so a peer
/// arriving as `::ffff:10.0.0.5` on a dual-stack listener matches an IPv4 rule.
pub fn canonical_ip(ip: IpValue) -> (r: IpValue)
    ensures
        r == canonical(ip),
{
    match ip {
        IpValue::V6(v) => if v >> 32u128 == 0xffffu128 {
            IpValue::V4((v & 0xffff_ffffu128) as u32)
        } else {
            IpValue::V6(v)
        },
        IpValue::V4(v) => IpValue::V4(v),
    }
}

/// The address with every host bit below `prefix` cleared.
pub open spec fn masked(ip: IpValue, prefix: u8) -> IpValue {
    match ip {
        IpValue::V4(v) => IpValue::V4(
            if prefix == 0 {
                0u32
            } else {
                v & (0xffff_ffffu32 << ((32 - prefix) as u32))
            },
        ),
        IpValue::V6(v) => IpValue::V6(
            if prefix == 0 {
                0u128
            } else {
                v & (0xffff_ffff_ffff_ffff_ffff_ffff_ffff_ffffu128 << ((128 - prefix) as u128))
            },
        ),
    }
}

/// Zeroes every host bit below `prefix` (at most the address width).
pub fn mask_ip(ip: IpValue, prefix: u8) -> (r: IpValue)
    requires
        match ip {
            IpValue::V4(_) => prefix <= 32,
            IpValue::V6(_) => prefix <= 128,
        },
    ensures
        r == masked(ip, prefix),
{
    match ip {
        IpValue::V4(v) => IpValue::V4(
            if prefix == 0 {
                0u32
            } else {
                v & (0xffff_ffffu32 << ((32 - prefix) as u32))
            },
        ),
        IpValue::V6(v) => IpValue::V6(
            if prefix == 0 {
                0u128
            } else {
                v & (0xffff_ffff_ffff_ffff_ffff_ffff_ffff_ffffu128 << ((128 - prefix) as u128))
            },
        ),
    }
}

pub open spec fn is_v4(ip: IpValue) -> bool {
    ip is V4
}

pub open spec fn max_prefix(ip: IpValue) -> int {
    if ip is V4 {
        32
    } else {
        128
    }
}

/// An IP network: a masked address and a prefix length no longer than its
/// family's width.
#[derive(Debug, Clone, Copy, PartialEq, Eq, Structural)]
pub struct Cidr {
    network: IpValue,
    prefix: u8,
}

/// Why a CIDR spec was refused.
#[derive(Debug, Clone, Copy, PartialEq, Eq, Structural)]
pub enum CidrError {
    /// The prefix length is not a `u8`.
    InvalidPrefix,
    /// The prefix is longer than the address family allows.
    PrefixTooLong { prefix: u8, max: u8 },
}

impl Cidr {
    #[verifier::type_invariant]
    spec fn well_formed(self) -> bool {
        self.prefix <= max_prefix(self.network)
    }

    pub closed spec fn network_spec(&self) -> IpValue {
        self.network
    }

    pub closed spec fn prefix_spec(&self) -> u8 {
        self.prefix
    }

    /// Whether `ip` is in the network `(network, prefix)`.
    pub open spec fn member(network: IpValue, prefix: u8, ip: IpValue) -> bool {
        let c = canonical(ip);
        is_v4(c) == is_v4(network) && masked(c, prefix) == network
    }

    /// The network of `addr` (canonicalized) with the given prefix text, or
    /// the whole host when there is none. The stored network has its host
    /// bits cleared, so `10.0.0.5/8` matches all of `10.0.0.0/8`.
    pub fn from_parts(addr: IpValue, prefix_text: Option<&str>) -> (r: Result<Cidr, CidrError>)
        ensures
            ({
                let a = canonical(addr);
                let mp = max_prefix(a);
                match prefix_text {
                    None => r matches Ok(c) && c.prefix_spec() == mp && c.network_spec() == masked(
                        a,
                        mp as u8,
                    ),
                    Some(t) => match parse_unsigned(t@, 255) {
                        Err(_) => r == Err::<Cidr, CidrError>(CidrError::InvalidPrefix),
                        Ok(p) => if p > mp {
                            r == Err::<Cidr, CidrError>(
                                CidrError::PrefixTooLong { prefix: p as u8, max: mp as u8 },
                            )
                        } else {
                            r matches Ok(c) && c.prefix_spec() == p && c.network_spec() == masked(
                                a,
                                p as u8,
                            )
                        },
                    },
                }
            }),
    {
        let a = canonical_ip(addr);
        let mp: u8 = match a {
            IpValue::V4(_) => 32,
            IpValue::V6(_) => 128,
        };
        let prefix: u8 = match prefix_text {
            None => mp,
            Some(t) => match parse_uint(t, 255) {
                Ok(p) => p as u8,
                Err(_) => return Err(CidrError::InvalidPrefix),
            },
        };
        if prefix > mp {
            return Err(CidrError::PrefixTooLong { prefix, max: mp });
        }
        Ok(Cidr { network: mask_ip(a, prefix), prefix })
    }

    /// Whether `ip` falls inside this network; an IPv4 address never matches
    /// an IPv6 network or the reverse, once both are canonical.
    pub fn contains(&self, ip: IpValue) -> (r: bool)
        ensures
            r == Cidr::member(self.network_spec(), self.prefix_spec(), ip),
    {
        proof {
            use_type_invariant(self);
        }
        let c = canonical_ip(ip);
        let same_family = match (c, self.network) {
            (IpValue::V4(_), IpValue::V4(_)) => true,
            (IpValue::V6(_), IpValue::V6(_)) => true,
            _ => false,
        };
        if !same_family {
            return false;
        }
        mask_ip(c, self.prefix) == self.network
    }

    /// The prefix length.
    pub fn prefix(&self) -> (p: u8)
        ensures
            p == self.prefix_spec(),
    {
        self.prefix
    }

    /// The network address (host bits cleared).
    pub fn network(&self) -> (n: IpValue)
        ensures
            n == self.network_spec(),
    {
        self.network
    }
}

/// Law: masking is idempotent, so a network contains the address it was
/// written with, whatever host bits that address had.
pub proof fn lemma_cidr_contains_its_address(addr: IpValue, prefix: u8)
    requires
        prefix <= max_prefix(canonical(addr)),
    ensures
        Cidr::member(masked(canonical(addr), prefix), prefix, addr),
{
    let a = canonical(addr);
    match a {
        IpValue::V4(v) => {
            if prefix > 0 {
                let s = (32 - prefix) as u32;
                assert((v & (0xffff_ffffu32 << s)) & (0xffff_ffffu32 << s) == v & (0xffff_ffffu32
                    << s)) by (bit_vector);
            }
        },
        IpValue::V6(v) => {
            if prefix > 0 {
                let s = (128 - prefix) as u128;
                assert((v & (0xffff_ffff_ffff_ffff_ffff_ffff_ffff_ffffu128 << s)) & (
                0xffff_ffff_ffff_ffff_ffff_ffff_ffff_ffffu128 << s) == v & (
                0xffff_ffff_ffff_ffff_ffff_ffff_ffff_ffffu128 << s)) by (bit_vector);
            }
        },
    }
    lemma_canonical_idempotent(addr);
}

/// Law: canonicalizing twice changes nothing.
pub proof fn lemma_canonical_idempotent(ip: IpValue)
    ensures
        canonical(canonical(ip)) == canonical(ip),
{
}

/// Law: a zero-length prefix matches every address of its family and none
/// of the other.
pub proof fn lemma_zero_prefix_matches_family(network: IpValue, ip: IpValue)
    requires
        network == masked(network, 0),
    ensures
        Cidr::member(network, 0, ip) == (is_v4(canonical(ip)) == is_v4(network)),
{
}

// ---- Splitting CIDR text ------------------------------------------------------------

/// `s` split at its first `/`: the address part and, if there was a slash,
/// the prefix part.
pub open spec fn split_at_slash(s: Seq<char>) -> (Seq<char>, Option<Seq<char>>) {
    let i = crate::store::first_index(s, |c: char| c == '/');
    if i >= 0 {
        (s.take(i), Some(s.skip(i + 1)))
    } else {
        (s, None)
    }
}

/// `str::split_once('/')` on a CIDR spec.
pub fn split_cidr_spec(spec: &str) -> (r: (String, Option<String>))
    ensures
        r.0@ == split_at_slash(spec@).0,
        crate::store::opt_string_view(r.1) == split_at_slash(spec@).1,
{
    let cs = chars_of(spec);
    let ghost p = |c: char| c == '/';
    let mut i: usize = 0;
    while i < cs.len()
        invariant
            i <= cs.len(),
            p == (|c: char| c == '/'),
            forall|a: int| 0 <= a < i ==> !p(#[trigger] cs@[a]),
        ensures
            i <= cs.len(),
            forall|a: int| 0 <= a < i ==> !p(#[trigger] cs@[a]),
            i < cs.len() ==> p(cs@[i as int]),
        decreases cs.len() - i,
    {
        if cs[i] == '/' {
            break;
        }
        i = i + 1;
    }
    proof {
        crate::store::lemma_first_index(cs@, p, i as int);
    }
    let mut head: Vec<char> = Vec::new();
    let mut k: usize = 0;
    while k < i
        invariant
            k <= i <= cs.len(),
            head@ == cs@.take(k as int),
        decreases i - k,
    {
        head.push(cs[k]);
        k = k + 1;
        assert(head@ =~= cs@.take(k as int));
    }
    if i == cs.len() {
        assert(cs@.take(i as int) =~= cs@);
        return (crate::text::string_from_chars(&head), None);
    }
    let mut tail: Vec<char> = Vec::new();
    let mut k: usize = i + 1;
    while k < cs.len()
        invariant
            i + 1 <= k <= cs.len(),
            tail@ == cs@.subrange(i + 1, k as int),
        decreases cs.len() - k,
    {
        tail.push(cs[k]);
        k = k + 1;
        assert(tail@ =~= cs@.subrange(i + 1, k as int));
    }
    assert(cs@.skip(i + 1) =~= cs@.subrange(i + 1, cs.len() as int));
    (crate::text::string_from_chars(&head), Some(crate::text::string_from_chars(&tail)))
}

} // verus!

verus! {

// ---- Loading -------------------------------------------------------------------------

/// An environment variable as read: absent, present, or present but not
/// valid Unicode (with the reader's message).
#[derive(Debug)]
pub enum EnvValue {
    Absent,
    Present(String),
    NotUnicode(String),
}

/// The environment values configuration is read from. The two directories
/// are already resolved (the variable's value, else the platform's data
/// directory).
#[derive(Debug)]
pub struct EnvValues {
    pub port: EnvValue,
    pub metrics_port: EnvValue,
    pub log_level: EnvValue,
    pub language: EnvValue,
    pub dictionary_url: EnvValue,
    pub refresh_interval_hours: EnvValue,
    pub db_url: EnvValue,
    pub auth_rate_limit_max: EnvValue,
    pub auth_rate_limit_window_seconds: EnvValue,
    pub auth_rate_limit_cooldown_seconds: EnvValue,
    pub dictionary_dir: String,
    pub db_path: String,
}

/// Runtime configuration.
#[derive(Debug)]
pub struct Config {
    pub port: u16,
    pub metrics_port: u16,
    pub log_level: String,
    pub language: String,
    pub dictionary_url: String,
    pub dictionary_dir: String,
    pub refresh_interval_hours: u64,
    pub db_path: String,
    /// PostgreSQL connection string; when set it takes precedence over `db_path`.
    pub db_url: Option<String>,
    pub auth_rate_limit_max: u32,
    pub auth_rate_limit_window_seconds: u64,
    pub auth_rate_limit_cooldown_seconds: u64,
    /// Networks permitted to call `POST /dictionaries`; empty means no
    /// network restriction.
    pub dictionary_admin_cidrs: Vec<Cidr>,
    /// Reverse proxies whose `X-Forwarded-For` may be trusted; empty means
    /// the header is never consulted.
    pub trusted_proxies: Vec<Cidr>,
}

/// An integer setting: its default when absent, else its parse.
pub open spec fn env_setting(v: EnvValue, name: Seq<char>, default: int, max: int) -> Result<
    int,
    Seq<char>,
> {
    match v {
        EnvValue::Absent => Ok(default),
        EnvValue::Present(s) => match parse_unsigned(s@, max) {
            Ok(n) => Ok(n),
            Err(e) => Err("invalid "@ + name + ": "@ + int_error_text(e)),
        },
        EnvValue::NotUnicode(m) => Err("failed to read "@ + name + ": "@ + m@),
    }
}

/// A text setting: its value when present and readable, else the default.
pub open spec fn env_text(v: EnvValue, default: Seq<char>) -> Seq<char> {
    match v {
        EnvValue::Present(s) => s@,
        _ => default,
    }
}

pub open spec fn is_postgres_url(u: Seq<char>) -> bool {
    (u.len() >= 11 && u.take(11) == "postgres://"@) || (u.len() >= 13 && u.take(13)
        == "postgresql://"@)
}

/// The PostgreSQL URL: unset when absent, empty or unreadable; refused when
/// it is not a `postgres://` or `postgresql://` URL.
pub open spec fn db_url_setting(v: EnvValue) -> Result<Option<Seq<char>>, Seq<char>> {
    match v {
        EnvValue::Present(u) => if u@.len() == 0 {
            Ok(None)
        } else if !is_postgres_url(u@) {
            Err("RUSTSPELL_DB_URL must be a postgres:// connection string"@)
        } else {
            Ok(Some(u@))
        },
        _ => Ok(None),
    }
}

pub open spec fn ports_differ_message(p: int, m: int) -> Seq<char> {
    "RUSTSPELL_PORT ("@ + crate::text::zero_padded(p as nat, 1) + ") and RUSTSPELL_METRICS_PORT ("@
        + crate::text::zero_padded(m as nat, 1) + ") must be different"@
}

/// The configuration the environment describes, as plain values, or the
/// first error met in reading order.
pub struct ConfigView {
    pub port: int,
    pub metrics_port: int,
    pub log_level: Seq<char>,
    pub language: Seq<char>,
    pub dictionary_url: Seq<char>,
    pub dictionary_dir: Seq<char>,
    pub refresh_interval_hours: int,
    pub db_path: Seq<char>,
    pub db_url: Option<Seq<char>>,
    pub auth_rate_limit_max: int,
    pub auth_rate_limit_window_seconds: int,
    pub auth_rate_limit_cooldown_seconds: int,
}

pub open spec fn load_outcome(env: EnvValues) -> Result<ConfigView, Seq<char>> {
    match env_setting(env.port, "RUSTSPELL_PORT"@, DEFAULT_PORT as int, u16::MAX as int) {
        Err(e) => Err(e),
        Ok(port) => match env_setting(
            env.metrics_port,
            "RUSTSPELL_METRICS_PORT"@,
            DEFAULT_METRICS_PORT as int,
            u16::MAX as int,
        ) {
            Err(e) => Err(e),
            Ok(mport) => if port == mport {
                Err(ports_differ_message(port, mport))
            } else {
                match db_url_setting(env.db_url) {
                    Err(e) => Err(e),
                    Ok(db_url) => match env_setting(
                        env.refresh_interval_hours,
                        "RUSTSPELL_REFRESH_INTERVAL_HOURS"@,
                        DEFAULT_REFRESH_INTERVAL_HOURS as int,
                        u64::MAX as int,
                    ) {
                        Err(e) => Err(e),
                        Ok(refresh) => match env_setting(
                            env.auth_rate_limit_max,
                            "RUSTSPELL_AUTH_RATE_LIMIT_MAX"@,
                            DEFAULT_AUTH_RATE_LIMIT_MAX as int,
                            u32::MAX as int,
                        ) {
                            Err(e) => Err(e),
                            Ok(rl_max) => match env_setting(
                                env.auth_rate_limit_window_seconds,
                                "RUSTSPELL_AUTH_RATE_LIMIT_WINDOW_SECONDS"@,
                                DEFAULT_AUTH_RATE_LIMIT_WINDOW_SECONDS as int,
                                u64::MAX as int,
                            ) {
                                Err(e) => Err(e),
                                Ok(rl_window) => match env_setting(
                                    env.auth_rate_limit_cooldown_seconds,
                                    "RUSTSPELL_AUTH_RATE_LIMIT_COOLDOWN_SECONDS"@,
                                    DEFAULT_AUTH_RATE_LIMIT_COOLDOWN_SECONDS as int,
                                    u64::MAX as int,
                                ) {
                                    Err(e) => Err(e),
                                    Ok(rl_cooldown) => Ok(
                                        ConfigView {
                                            port,
                                            metrics_port: mport,
                                            log_level: env_text(env.log_level, default_log_level()),
                                            language: env_text(env.language, default_language()),
                                            dictionary_url: env_text(
                                                env.dictionary_url,
                                                default_dictionary_url(),
                                            ),
                                            dictionary_dir: env.dictionary_dir@,
                                            refresh_interval_hours: refresh,
                                            db_path: env.db_path@,
                                            db_url,
                                            auth_rate_limit_max: rl_max,
                                            auth_rate_limit_window_seconds: rl_window,
                                            auth_rate_limit_cooldown_seconds: rl_cooldown,
                                        },
                                    ),
                                },
                            },
                        },
                    },
                }
            },
        },
    }
}

pub open spec fn config_view(c: Config) -> ConfigView {
    ConfigView {
        port: c.port as int,
        metrics_port: c.metrics_port as int,
        log_level: c.log_level@,
        language: c.language@,
        dictionary_url: c.dictionary_url@,
        dictionary_dir: c.dictionary_dir@,
        refresh_interval_hours: c.refresh_interval_hours as int,
        db_path: c.db_path@,
        db_url: crate::store::opt_string_view(c.db_url),
        auth_rate_limit_max: c.auth_rate_limit_max as int,
        auth_rate_limit_window_seconds: c.auth_rate_limit_window_seconds as int,
        auth_rate_limit_cooldown_seconds: c.auth_rate_limit_cooldown_seconds as int,
    }
}

fn read_setting(v: &EnvValue, name: &str, default: u64, max: u64) -> (r: Result<u64, String>)
    requires
        max >= 9,
        default <= max,
    ensures
        match env_setting(*v, name@, default as int, max as int) {
            Ok(n) => r == Ok::<u64, String>(n as u64) && 0 <= n <= max,
            Err(m) => r matches Err(e) && e@ == m,
        },
{
    match v {
        EnvValue::Absent => Ok(default),
        EnvValue::Present(s) => match parse_uint(s.as_str(), max) {
            Ok(n) => Ok(n),
            Err(e) => {
                let mut m = "invalid ".to_string();
                push_all(&mut m, &chars_of(name));
                push_all(&mut m, &chars_of(": "));
                push_all(&mut m, &chars_of(int_error_message(e).as_str()));
                Err(m)
            },
        },
        EnvValue::NotUnicode(msg) => {
            let mut m = "failed to read ".to_string();
            push_all(&mut m, &chars_of(name));
            push_all(&mut m, &chars_of(": "));
            push_all(&mut m, &chars_of(msg.as_str()));
            Err(m)
        },
    }
}

fn read_text(v: &EnvValue, default: &str) -> (r: String)
    ensures
        r@ == env_text(*v, default@),
{
    match v {
        EnvValue::Present(s) => s.clone(),
        _ => default.to_string(),
    }
}

fn read_db_url(v: &EnvValue) -> (r: Result<Option<String>, String>)
    ensures
        match db_url_setting(*v) {
            Ok(u) => r matches Ok(x) && crate::store::opt_string_view(x) == u,
            Err(m) => r matches Err(e) && e@ == m,
        },
{
    match v {
        EnvValue::Present(u) => {
            let cs = chars_of(u.as_str());
            if cs.len() == 0 {
                Ok(None)
            } else {
                proof {
                    reveal_strlit("postgres://");
                    reveal_strlit("postgresql://");
                }
                if !starts_with(&cs, "postgres://") && !starts_with(&cs, "postgresql://") {
                    Err("RUSTSPELL_DB_URL must be a postgres:// connection string".to_string())
                } else {
                    Ok(Some(u.clone()))
                }
            }
        },
        _ => Ok(None),
    }
}

/// Reads and validates the configuration: integer settings parse (or take
/// their defaults), the two ports differ, and a database URL, when given, is
/// a PostgreSQL one. The first error in reading order is returned. The CIDR
/// lists come back empty; they are read after this succeeds.
pub fn load(env: &EnvValues) -> (r: Result<Config, String>)
    ensures
        match load_outcome(*env) {
            Ok(c) => r matches Ok(x) && config_view(x) == c && x.dictionary_admin_cidrs.len() == 0
                && x.trusted_proxies.len() == 0,
            Err(m) => r matches Err(e) && e@ == m,
        },
{
    let port = match read_setting(&env.port, "RUSTSPELL_PORT", 3000, 65535) {
        Ok(v) => v as u16,
        Err(e) => return Err(e),
    };
    assert(env_setting(env.port, "RUSTSPELL_PORT"@, DEFAULT_PORT as int, u16::MAX as int) == Ok::<
        int,
        Seq<char>,
    >(port as int));
    let metrics_port = match read_setting(&env.metrics_port, "RUSTSPELL_METRICS_PORT", 9090, 65535) {
        Ok(v) => v as u16,
        Err(e) => return Err(e),
    };
    assert(env_setting(
        env.metrics_port,
        "RUSTSPELL_METRICS_PORT"@,
        DEFAULT_METRICS_PORT as int,
        u16::MAX as int,
    ) == Ok::<int, Seq<char>>(metrics_port as int));
    if port == metrics_port {
        let mut m = "RUSTSPELL_PORT (".to_string();
        crate::text::push_zero_padded(&mut m, port as u64, 1);
        push_all(&mut m, &chars_of(") and RUSTSPELL_METRICS_PORT ("));
        crate::text::push_zero_padded(&mut m, metrics_port as u64, 1);
        push_all(&mut m, &chars_of(") must be different"));
        assert(m@ =~= ports_differ_message(port as int, metrics_port as int));
        return Err(m);
    }
    let db_url = match read_db_url(&env.db_url) {
        Ok(u) => u,
        Err(e) => return Err(e),
    };
    let refresh = match read_setting(
        &env.refresh_interval_hours,
        "RUSTSPELL_REFRESH_INTERVAL_HOURS",
        24,
        u64::MAX,
    ) {
        Ok(v) => v,
        Err(e) => return Err(e),
    };
    let rl_max = match read_setting(
        &env.auth_rate_limit_max,
        "RUSTSPELL_AUTH_RATE_LIMIT_MAX",
        10,
        u32::MAX as u64,
    ) {
        Ok(v) => v as u32,
        Err(e) => return Err(e),
    };
    let rl_window = match read_setting(
        &env.auth_rate_limit_window_seconds,
        "RUSTSPELL_AUTH_RATE_LIMIT_WINDOW_SECONDS",
        60,
        u64::MAX,
    ) {
        Ok(v) => v,
        Err(e) => return Err(e),
    };
    let rl_cooldown = match read_setting(
        &env.auth_rate_limit_cooldown_seconds,
        "RUSTSPELL_AUTH_RATE_LIMIT_COOLDOWN_SECONDS",
        60,
        u64::MAX,
    ) {
        Ok(v) => v,
        Err(e) => return Err(e),
    };
    let c = Config {
            port,
            metrics_port,
            log_level: read_text(&env.log_level, "info"),
            language: read_text(&env.language, "en_US"),
            dictionary_url: read_text(
                &env.dictionary_url,
                "https://raw.githubusercontent.com/LibreOffice/dictionaries/master/en",
            ),
            dictionary_dir: env.dictionary_dir.clone(),
            refresh_interval_hours: refresh,
            db_path: env.db_path.clone(),
            db_url,
            auth_rate_limit_max: rl_max,
            auth_rate_limit_window_seconds: rl_window,
            auth_rate_limit_cooldown_seconds: rl_cooldown,
            dictionary_admin_cidrs: Vec::new(),
            trusted_proxies: Vec::new(),
        };
    assert(load_outcome(*env) == Ok::<ConfigView, Seq<char>>(config_view(c)));
    Ok(c)
}

/// `s` cut at every comma (`str::split(',')`).
pub open spec fn split_commas(s: Seq<char>) -> Seq<Seq<char>>
    decreases s.len(),
{
    if s.len() == 0 {
        seq![Seq::empty()]
    } else {
        let p = split_commas(s.drop_last());
        if s.last() == ',' {
            p.push(Seq::empty())
        } else {
            p.update(p.len() - 1, p.last().push(s.last()))
        }
    }
}

/// The entries of a comma-separated list: each trimmed, empty ones dropped.
pub open spec fn list_entries(s: Seq<char>) -> Seq<Seq<char>> {
    crate::store::keep(
        split_commas(s).map_values(|p: Seq<char>| trim(p)),
        |p: Seq<char>| p.len() > 0,
    )
}

} // verus!

verus! {

/// The entries of a comma-separated list (see `list_entries`).
pub fn split_list(value: &str) -> (r: Vec<String>)
    ensures
        r@.map_values(|s: String| s@) == list_entries(value@),
{
    let cs = chars_of(value);
    let mut pieces: Vec<Vec<char>> = Vec::new();
    pieces.push(Vec::new());
    assert(crate::text::views(pieces@) =~= split_commas(cs@.take(0)));
    for i in 0..cs.len()
        invariant
            crate::text::views(pieces@) == split_commas(cs@.take(i as int)),
            pieces.len() >= 1,
    {
        proof {
            assert(cs@.take(i + 1).drop_last() =~= cs@.take(i as int));
        }
        let ghost before = crate::text::views(pieces@);
        if cs[i] == ',' {
            pieces.push(Vec::new());
            assert(crate::text::views(pieces@) =~= before.push(Seq::empty()));
        } else {
            let last = pieces.len() - 1;
            let mut p = pieces.pop().unwrap();
            p.push(cs[i]);
            pieces.push(p);
            assert(crate::text::views(pieces@) =~= before.update(
                last as int,
                before.last().push(cs@[i as int]),
            ));
        }
    }
    assert(cs@.take(cs.len() as int) =~= cs@);
    let ghost trimmed = split_commas(cs@).map_values(|p: Seq<char>| trim(p));
    let ghost nonempty = |p: Seq<char>| p.len() > 0;
    let mut r: Vec<String> = Vec::new();
    for k in 0..pieces.len()
        invariant
            crate::text::views(pieces@) == split_commas(cs@),
            trimmed == split_commas(cs@).map_values(|p: Seq<char>| trim(p)),
            nonempty == (|p: Seq<char>| p.len() > 0),
            r@.map_values(|s: String| s@) == crate::store::keep(trimmed.take(k as int), nonempty),
    {
        proof {
            crate::store::lemma_keep_step(trimmed, nonempty, k as int);
            assert(trimmed[k as int] == trim(pieces@[k as int]@));
        }
        let t = trim_chars(&pieces[k]);
        if t.len() > 0 {
            let ghost before = r@.map_values(|s: String| s@);
            r.push(crate::text::string_from_chars(&t));
            assert(r@.map_values(|s: String| s@) =~= before.push(t@));
        }
    }
    assert(trimmed.take(pieces.len() as int) =~= trimmed);
    r
}

} // verus!
