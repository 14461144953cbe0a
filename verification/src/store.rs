//! The records the store keeps (API keys, tenants, origins, dictionaries),
//! their decoding from stored columns, key hashing and generation, and the
//! in-memory caches the auth, quota and CORS hot paths read. The SQL that
//! fills and persists them lives with the database driver outside.

use vstd::prelude::*;

use crate::text::{chars_of, push_all, push_char};
use vstd::string::StringSliceAdditionalSpecFns;

verus! {

broadcast use vstd::string::group_string_axioms;

// ---- Roles ----------------------------------------------------------------

/// A key's role. `Platform` keys manage tenants and have no tenant;
/// `Admin` and `Standard` keys always belong to exactly one tenant.
#[derive(Debug, Clone, Copy, PartialEq, Eq, Structural)]
pub enum Role {
    Platform,
    Admin,
    Standard,
}

/// The stored text of a role.
pub open spec fn role_text(r: Role) -> Seq<char> {
    match r {
        Role::Platform => "platform"@,
        Role::Admin => "admin"@,
        Role::Standard => "standard"@,
    }
}

/// The role a stored text names, if any.
pub open spec fn role_of_text(s: Seq<char>) -> Option<Role> {
    if s == "platform"@ {
        Some(Role::Platform)
    } else if s == "admin"@ {
        Some(Role::Admin)
    } else if s == "standard"@ {
        Some(Role::Standard)
    } else {
        None
    }
}

impl Role {
    pub fn as_str(self) -> (r: &'static str)
        ensures
            r@ == role_text(self),
    {
        match self {
            Role::Platform => "platform",
            Role::Admin => "admin",
            Role::Standard => "standard",
        }
    }

    pub fn parse(s: &str) -> (r: Option<Role>)
        ensures
            r == role_of_text(s@),
    {
        let t = s.to_string();
        if t == "platform".to_string() {
            Some(Role::Platform)
        } else if t == "admin".to_string() {
            Some(Role::Admin)
        } else if t == "standard".to_string() {
            Some(Role::Standard)
        } else {
            None
        }
    }
}

/// Law: a role survives being stored as text and read back.
pub proof fn lemma_role_text_round_trip(r: Role)
    ensures
        role_of_text(role_text(r)) == Some(r),
{
    reveal_strlit("platform");
    reveal_strlit("admin");
    reveal_strlit("standard");
    assert("admin"@.len() != "platform"@.len());
    assert("standard"@[0] != "platform"@[0]);
    assert("standard"@.len() != "admin"@.len());
}

// ---- Records ----------------------------------------------------------------

/// An API key as stored (the raw value is never kept, only its hash).
#[derive(Debug)]
pub struct KeyRecord {
    pub id: String,
    pub tenant_id: Option<String>,
    pub label: String,
    pub role: Role,
    pub key_hash: String,
    pub created_at: u64,
    pub expires_at: Option<u64>,
    pub last_used_at: Option<u64>,
    pub revoked_at: Option<u64>,
}

/// A key record as plain values.
pub struct KeyView {
    pub id: Seq<char>,
    pub tenant_id: Option<Seq<char>>,
    pub label: Seq<char>,
    pub role: Role,
    pub key_hash: Seq<char>,
    pub created_at: u64,
    pub expires_at: Option<u64>,
    pub last_used_at: Option<u64>,
    pub revoked_at: Option<u64>,
}

pub open spec fn opt_string_view(s: Option<String>) -> Option<Seq<char>> {
    match s {
        Some(v) => Some(v@),
        None => None,
    }
}

impl View for KeyRecord {
    type V = KeyView;

    open spec fn view(&self) -> KeyView {
        KeyView {
            id: self.id@,
            tenant_id: opt_string_view(self.tenant_id),
            label: self.label@,
            role: self.role,
            key_hash: self.key_hash@,
            created_at: self.created_at,
            expires_at: self.expires_at,
            last_used_at: self.last_used_at,
            revoked_at: self.revoked_at,
        }
    }
}

/// A key authenticates at `now` when it is not revoked and not expired.
pub open spec fn key_active(k: KeyView, now: u64) -> bool {
    k.revoked_at is None && match k.expires_at {
        Some(exp) => exp > now,
        None => true,
    }
}

pub fn clone_opt_string(s: &Option<String>) -> (r: Option<String>)
    ensures
        opt_string_view(r) == opt_string_view(*s),
{
    match s {
        Some(v) => Some(v.clone()),
        None => None,
    }
}

impl KeyRecord {
    pub fn is_active(&self, now: u64) -> (r: bool)
        ensures
            r == key_active(self@, now),
    {
        self.revoked_at.is_none() && match self.expires_at {
            Some(exp) => exp > now,
            None => true,
        }
    }

    /// A copy with the same fields.
    pub fn duplicate(&self) -> (r: KeyRecord)
        ensures
            r@ == self@,
    {
        KeyRecord {
            id: self.id.clone(),
            tenant_id: clone_opt_string(&self.tenant_id),
            label: self.label.clone(),
            role: self.role,
            key_hash: self.key_hash.clone(),
            created_at: self.created_at,
            expires_at: self.expires_at,
            last_used_at: self.last_used_at,
            revoked_at: self.revoked_at,
        }
    }
}

/// A tenant: its default language, request quota (`0` is unlimited), the
/// requests counted against it, billing period and suspension.
#[derive(Debug)]
pub struct TenantInfo {
    pub id: String,
    pub name: String,
    pub language: String,
    pub quota_limit: u64,
    pub request_count: u64,
    pub period_start: Option<u64>,
    pub period_end: Option<u64>,
    pub suspended_at: Option<u64>,
    pub created_at: u64,
}

pub struct TenantView {
    pub id: Seq<char>,
    pub name: Seq<char>,
    pub language: Seq<char>,
    pub quota_limit: u64,
    pub request_count: u64,
    pub period_start: Option<u64>,
    pub period_end: Option<u64>,
    pub suspended_at: Option<u64>,
    pub created_at: u64,
}

impl View for TenantInfo {
    type V = TenantView;

    open spec fn view(&self) -> TenantView {
        TenantView {
            id: self.id@,
            name: self.name@,
            language: self.language@,
            quota_limit: self.quota_limit,
            request_count: self.request_count,
            period_start: self.period_start,
            period_end: self.period_end,
            suspended_at: self.suspended_at,
            created_at: self.created_at,
        }
    }
}

impl TenantInfo {
    pub fn duplicate(&self) -> (r: TenantInfo)
        ensures
            r@ == self@,
    {
        TenantInfo {
            id: self.id.clone(),
            name: self.name.clone(),
            language: self.language.clone(),
            quota_limit: self.quota_limit,
            request_count: self.request_count,
            period_start: self.period_start,
            period_end: self.period_end,
            suspended_at: self.suspended_at,
            created_at: self.created_at,
        }
    }
}

/// A browser origin registered to a tenant.
#[derive(Debug)]
pub struct OriginInfo {
    pub id: String,
    pub tenant_id: String,
    pub origin: String,
    pub created_at: u64,
}

pub struct OriginView {
    pub id: Seq<char>,
    pub tenant_id: Seq<char>,
    pub origin: Seq<char>,
    pub created_at: u64,
}

impl View for OriginInfo {
    type V = OriginView;

    open spec fn view(&self) -> OriginView {
        OriginView {
            id: self.id@,
            tenant_id: self.tenant_id@,
            origin: self.origin@,
            created_at: self.created_at,
        }
    }
}

impl OriginInfo {
    pub fn duplicate(&self) -> (r: OriginInfo)
        ensures
            r@ == self@,
    {
        OriginInfo {
            id: self.id.clone(),
            tenant_id: self.tenant_id.clone(),
            origin: self.origin.clone(),
            created_at: self.created_at,
        }
    }
}

/// A registered dictionary locale and its source URL.
#[derive(Debug)]
pub struct DictionaryInfo {
    pub code: String,
    pub source_url: String,
    pub created_at: u64,
}

pub struct DictionaryView {
    pub code: Seq<char>,
    pub source_url: Seq<char>,
    pub created_at: u64,
}

impl View for DictionaryInfo {
    type V = DictionaryView;

    open spec fn view(&self) -> DictionaryView {
        DictionaryView { code: self.code@, source_url: self.source_url@, created_at: self.created_at }
    }
}

impl DictionaryInfo {
    pub fn duplicate(&self) -> (r: DictionaryInfo)
        ensures
            r@ == self@,
    {
        DictionaryInfo {
            code: self.code.clone(),
            source_url: self.source_url.clone(),
            created_at: self.created_at,
        }
    }
}

/// A freshly generated key: the raw value is only ever available here, once.
#[derive(Debug)]
pub struct CreatedApiKey {
    pub record: KeyRecord,
    pub raw_key: String,
}

// ---- Decoding stored columns ------------------------------------------------
//
// Nullable columns are read back through `COALESCE` with a sentinel that no
// real value takes: `-1` for timestamps (every stored timestamp comes from a
// `u64` of seconds) and `''` for a tenant id (tenant ids are UUIDs).

/// A stored timestamp column: the sentinel (any negative value) is `None`.
pub open spec fn stored_time(v: i64) -> Option<u64> {
    if v >= 0 {
        Some(v as u64)
    } else {
        None
    }
}

fn decode_time(v: i64) -> (r: Option<u64>)
    ensures
        r == stored_time(v),
{
    if v >= 0 {
        Some(v as u64)
    } else {
        None
    }
}

/// Builds a key record from its stored columns; fails on an unknown role.
pub fn key_record_from_columns(
    id: String,
    tenant_id: String,
    label: String,
    role: &str,
    key_hash: String,
    created_at: i64,
    expires_at: i64,
    last_used_at: i64,
    revoked_at: i64,
) -> (r: Result<KeyRecord, String>)
    ensures
        match role_of_text(role@) {
            None => r matches Err(m) && m@ == "invalid role in database: "@ + role@,
            Some(ro) => r matches Ok(k) && k@ == (KeyView {
                id: id@,
                tenant_id: if tenant_id@.len() == 0 {
                    None
                } else {
                    Some(tenant_id@)
                },
                label: label@,
                role: ro,
                key_hash: key_hash@,
                created_at: created_at as u64,
                expires_at: stored_time(expires_at),
                last_used_at: stored_time(last_used_at),
                revoked_at: stored_time(revoked_at),
            }),
        },
{
    let role = match Role::parse(role) {
        Some(r) => r,
        None => {
            let mut m = "invalid role in database: ".to_string();
            push_all(&mut m, &chars_of(role));
            return Err(m);
        },
    };
    let tenant = if tenant_id.as_str().is_empty() {
        None
    } else {
        Some(tenant_id)
    };
    Ok(
        KeyRecord {
            id,
            tenant_id: tenant,
            label,
            role,
            key_hash,
            created_at: created_at as u64,
            expires_at: decode_time(expires_at),
            last_used_at: decode_time(last_used_at),
            revoked_at: decode_time(revoked_at),
        },
    )
}

/// Builds a tenant from its stored columns.
pub fn tenant_info_from_columns(
    id: String,
    name: String,
    language: String,
    quota_limit: i64,
    request_count: i64,
    period_start: i64,
    period_end: i64,
    suspended_at: i64,
    created_at: i64,
) -> (r: TenantInfo)
    ensures
        r@ == (TenantView {
            id: id@,
            name: name@,
            language: language@,
            quota_limit: quota_limit as u64,
            request_count: request_count as u64,
            period_start: stored_time(period_start),
            period_end: stored_time(period_end),
            suspended_at: stored_time(suspended_at),
            created_at: created_at as u64,
        }),
{
    TenantInfo {
        id,
        name,
        language,
        quota_limit: quota_limit as u64,
        request_count: request_count as u64,
        period_start: decode_time(period_start),
        period_end: decode_time(period_end),
        suspended_at: decode_time(suspended_at),
        created_at: created_at as u64,
    }
}

/// Builds an origin from its stored columns.
pub fn origin_info_from_columns(id: String, tenant_id: String, origin: String, created_at: i64) -> (r:
    OriginInfo)
    ensures
        r@ == (OriginView {
            id: id@,
            tenant_id: tenant_id@,
            origin: origin@,
            created_at: created_at as u64,
        }),
{
    OriginInfo { id, tenant_id, origin, created_at: created_at as u64 }
}

/// Builds a dictionary from its stored columns.
pub fn dictionary_info_from_columns(code: String, source_url: String, created_at: i64) -> (r:
    DictionaryInfo)
    ensures
        r@ == (DictionaryView { code: code@, source_url: source_url@, created_at: created_at as u64 }),
{
    DictionaryInfo { code, source_url, created_at: created_at as u64 }
}

} // verus!

verus! {

// ---- Key hashing and generation ------------------------------------------------

/// What `sha2::Sha256::digest` returns for a byte string: its SHA-256 digest.
pub uninterp spec fn sha256_digest(data: Seq<u8>) -> Seq<u8>;

/// `sha2::Sha256::digest`, as a byte vector. Claimed: the result is the
/// digest of `data` (a function of `data` alone) and is 32 bytes long.
#[verifier::external_body]
fn sha256(data: &[u8]) -> (r: Vec<u8>)
    ensures
        r@ == sha256_digest(data@),
        r.len() == 32,
{
    <sha2::Sha256 as sha2::Digest>::digest(data).to_vec()
}

/// A lowercase hex digit of a value in `0..16`.
pub open spec fn hex_digit(v: int) -> char {
    if v < 10 {
        ((v + 48) as u32) as char
    } else {
        ((v + 87) as u32) as char
    }
}

/// Lowercase hex, two digits per byte.
pub open spec fn hex_lower(bytes: Seq<u8>) -> Seq<char>
    decreases bytes.len(),
{
    if bytes.len() == 0 {
        Seq::empty()
    } else {
        hex_lower(bytes.drop_last()) + seq![
            hex_digit(bytes.last() as int / 16),
            hex_digit(bytes.last() as int % 16),
        ]
    }
}

fn hex_char(v: u8) -> (c: char)
    requires
        v < 16,
    ensures
        c == hex_digit(v as int),
{
    if v < 10 {
        (v + 48) as char
    } else {
        (v + 87) as char
    }
}

/// Lowercase hex of a byte string.
pub fn to_hex(bytes: &Vec<u8>) -> (s: String)
    ensures
        s@ == hex_lower(bytes@),
{
    let mut s = String::new();
    for i in 0..bytes.len()
        invariant
            s@ == hex_lower(bytes@.take(i as int)),
    {
        let b = bytes[i];
        push_char(&mut s, hex_char(b / 16));
        push_char(&mut s, hex_char(b % 16));
        proof {
            assert(bytes@.take(i + 1).drop_last() =~= bytes@.take(i as int));
        }
        assert(s@ =~= hex_lower(bytes@.take(i + 1)));
    }
    assert(bytes@.take(bytes.len() as int) =~= bytes@);
    s
}

/// What is stored for a raw key: the lowercase hex SHA-256 of its UTF-8 bytes.
pub fn hash_key(raw: &str) -> (h: String)
    ensures
        h@ == hex_lower(sha256_digest(vstd::utf8::encode_utf8(raw@))),
{
    let digest = sha256(raw.as_bytes());
    to_hex(&digest)
}

/// `uuid::Uuid::new_v4().simple()` as text: 32 lowercase hex digits of a
/// random UUID. Claimed: the length and the alphabet; the value is random.
#[verifier::external_body]
fn uuid_v4_simple() -> (r: String)
    ensures
        r@.len() == 32,
        forall|i: int| 0 <= i < 32 ==> is_lower_hex(#[trigger] r@[i]),
{
    uuid::Uuid::new_v4().simple().to_string()
}

/// `uuid::Uuid::new_v4()` in its hyphenated text form: 36 chars, groups of
/// 8, 4, 4, 4 and 12 lowercase hex digits joined by hyphens. Claimed: that
/// shape; the value is random.
#[verifier::external_body]
fn uuid_v4_hyphenated() -> (r: String)
    ensures
        is_hyphenated_uuid(r@),
{
    uuid::Uuid::new_v4().to_string()
}

pub open spec fn is_lower_hex(c: char) -> bool {
    ('0' <= c <= '9') || ('a' <= c <= 'f')
}

/// The hyphenated UUID text shape: `xxxxxxxx-xxxx-xxxx-xxxx-xxxxxxxxxxxx`,
/// every `x` a lowercase hex digit.
pub open spec fn is_hyphenated_uuid(s: Seq<char>) -> bool {
    &&& s.len() == 36
    &&& forall|i: int|
        0 <= i < 36 ==> if i == 8 || i == 13 || i == 18 || i == 23 {
            #[trigger] s[i] == '-'
        } else {
            is_lower_hex(s[i])
        }
}

/// A fresh record id (a random UUID).
pub fn new_id() -> (r: String)
    ensures
        is_hyphenated_uuid(r@),
{
    uuid_v4_hyphenated()
}

/// A raw key: `rsk_` followed by two 32-digit hex texts.
pub open spec fn raw_key_text(a: Seq<char>, b: Seq<char>) -> Seq<char> {
    "rsk_"@ + a + b
}

/// The raw key made of two 32-digit simple UUID texts.
pub fn raw_key_from(a: &str, b: &str) -> (r: String)
    ensures
        r@ == raw_key_text(a@, b@),
{
    let mut s = "rsk_".to_string();
    push_all(&mut s, &chars_of(a));
    push_all(&mut s, &chars_of(b));
    s
}

/// A fresh raw key, shown to the caller exactly once: `rsk_` followed by the
/// simple text of two random UUIDs.
pub fn generate_raw_key() -> (r: String)
    ensures
        r@.len() == 68,
        r@.subrange(0, 4) == "rsk_"@,
        forall|i: int| 4 <= i < 68 ==> is_lower_hex(#[trigger] r@[i]),
        exists|a: Seq<char>, b: Seq<char>|
            a.len() == 32 && b.len() == 32 && #[trigger] raw_key_text(a, b) == r@,
{
    let a = uuid_v4_simple();
    let b = uuid_v4_simple();
    let s = raw_key_from(a.as_str(), b.as_str());
    proof {
        reveal_strlit("rsk_");
        assert(s@ == "rsk_"@ + a@ + b@);
        assert(s@.subrange(0, 4) =~= "rsk_"@);
        assert forall|i: int| 4 <= i < 68 implies is_lower_hex(#[trigger] s@[i]) by {
            if i < 36 {
                assert(s@[i] == a@[i - 4]);
            } else {
                assert(s@[i] == b@[i - 36]);
            }
        }
    }
    s
}

// ---- Sequence helpers for the caches -------------------------------------------------

/// Index of the first element satisfying `p`, or -1.
pub open spec fn first_index<A>(s: Seq<A>, p: spec_fn(A) -> bool) -> int
    decreases s.len(),
{
    if s.len() == 0 {
        -1
    } else {
        let i = first_index(s.drop_last(), p);
        if i >= 0 {
            i
        } else if p(s.last()) {
            s.len() - 1
        } else {
            -1
        }
    }
}

/// The elements satisfying `p`, in order.
pub open spec fn keep<A>(s: Seq<A>, p: spec_fn(A) -> bool) -> Seq<A>
    decreases s.len(),
{
    if s.len() == 0 {
        Seq::empty()
    } else if p(s.last()) {
        keep(s.drop_last(), p).push(s.last())
    } else {
        keep(s.drop_last(), p)
    }
}

/// Replaces the element at `i`, or appends when `i` is -1.
pub open spec fn put_at<A>(s: Seq<A>, i: int, x: A) -> Seq<A> {
    if i >= 0 {
        s.update(i, x)
    } else {
        s.push(x)
    }
}

pub proof fn lemma_first_index<A>(s: Seq<A>, p: spec_fn(A) -> bool, j: int)
    requires
        0 <= j <= s.len(),
        forall|a: int| 0 <= a < j ==> !p(#[trigger] s[a]),
        j < s.len() ==> p(s[j]),
    ensures
        first_index(s, p) == (if j < s.len() {
            j
        } else {
            -1
        }),
    decreases s.len(),
{
    if s.len() > 0 {
        let t = s.drop_last();
        if j < s.len() - 1 {
            lemma_first_index(t, p, j);
        } else {
            assert forall|a: int| 0 <= a < t.len() implies !p(#[trigger] t[a]) by {
                assert(t[a] == s[a]);
            }
            lemma_first_index(t, p, t.len() as int);
        }
    }
}

pub proof fn lemma_keep_step<A>(s: Seq<A>, p: spec_fn(A) -> bool, i: int)
    requires
        0 <= i < s.len(),
    ensures
        keep(s.take(i + 1), p) == (if p(s[i]) {
            keep(s.take(i), p).push(s[i])
        } else {
            keep(s.take(i), p)
        }),
{
    assert(s.take(i + 1).drop_last() =~= s.take(i));
}

pub proof fn lemma_first_index_bounds<A>(s: Seq<A>, p: spec_fn(A) -> bool)
    ensures
        -1 <= first_index(s, p) < s.len(),
        first_index(s, p) >= 0 ==> p(s[first_index(s, p)]),
        forall|a: int| 0 <= a < s.len() && first_index(s, p) < 0 ==> !p(#[trigger] s[a]),
    decreases s.len(),
{
    if s.len() > 0 {
        lemma_first_index_bounds(s.drop_last(), p);
        assert forall|a: int| 0 <= a < s.len() && first_index(s, p) < 0 implies !p(#[trigger] s[a]) by {
            if a < s.len() - 1 {
                assert(s.drop_last()[a] == s[a]);
            }
        }
    }
}

} // verus!

verus! {

// ---- The key cache ------------------------------------------------------------

pub open spec fn key_views(s: Seq<KeyRecord>) -> Seq<KeyView> {
    s.map_values(|k: KeyRecord| k@)
}

pub open spec fn has_hash(h: Seq<char>) -> spec_fn(KeyView) -> bool {
    |k: KeyView| k.key_hash == h
}

pub open spec fn has_id(id: Seq<char>) -> spec_fn(KeyView) -> bool {
    |k: KeyView| k.id == id
}

pub open spec fn lacks_id(id: Seq<char>) -> spec_fn(KeyView) -> bool {
    |k: KeyView| k.id != id
}

pub open spec fn of_tenant_with_id(t: Seq<char>, id: Seq<char>) -> spec_fn(KeyView) -> bool {
    |k: KeyView| k.id == id && k.tenant_id == Some(t)
}

pub open spec fn of_tenant(t: Seq<char>) -> spec_fn(KeyView) -> bool {
    |k: KeyView| k.tenant_id == Some(t)
}

/// A key `reset_bootstrap_platform_key` acts on: an active, tenant-less
/// platform key labeled `bootstrap`.
pub open spec fn is_bootstrap_key(now: u64) -> spec_fn(KeyView) -> bool {
    |k: KeyView|
        k.role == Role::Platform && k.label == "bootstrap"@ && k.tenant_id is None && key_active(
            k,
            now,
        )
}

/// `k` stored under its hash: replaces the record with that hash, if any.
pub open spec fn put_key(s: Seq<KeyView>, k: KeyView) -> Seq<KeyView> {
    put_at(s, first_index(s, has_hash(k.key_hash)), k)
}

/// The cached record of hash `h` when it is active at `now`.
pub open spec fn cached_active(s: Seq<KeyView>, h: Seq<char>, now: u64) -> Option<KeyView> {
    let i = first_index(s, has_hash(h));
    if i >= 0 && key_active(s[i], now) {
        Some(s[i])
    } else {
        None
    }
}

/// The keys after revoking the one stored under `h` at `at`; a key that
/// is already revoked keeps its first timestamp.
pub open spec fn revoke_hash(v: Seq<KeyView>, h: Seq<char>, at: u64) -> Seq<KeyView> {
    let i = first_index(v, has_hash(h));
    if i >= 0 && v[i].revoked_at is None {
        v.update(i, KeyView { revoked_at: Some(at), ..v[i] })
    } else {
        v
    }
}

/// A key moved to a new hash by rotation: same id, tenant, role and label,
/// never used yet.
pub open spec fn rehashed(k: KeyView, new_h: Seq<char>) -> KeyView {
    KeyView { key_hash: new_h, last_used_at: None, ..k }
}

/// The keys after moving the one stored under `old_h` to `new_h`.
pub open spec fn rehash_keys(v: Seq<KeyView>, old_h: Seq<char>, new_h: Seq<char>) -> Seq<KeyView> {
    let i = first_index(v, has_hash(old_h));
    if i >= 0 {
        put_key(v.remove(i), rehashed(v[i], new_h))
    } else {
        v
    }
}

/// No two records share a hash: what the cache keeps.
pub open spec fn hashes_unique(v: Seq<KeyView>) -> bool {
    forall|i: int, j: int|
        0 <= i < v.len() && 0 <= j < v.len() && i != j ==> (#[trigger] v[i]).key_hash != (
        #[trigger] v[j]).key_hash
}

/// In-memory copy of the stored API keys, one record per key hash.
pub struct KeyCache {
    keys: Vec<KeyRecord>,
}

impl View for KeyCache {
    type V = Seq<KeyView>;

    closed spec fn view(&self) -> Seq<KeyView> {
        key_views(self.keys@)
    }
}

impl KeyCache {
    pub fn new() -> (c: KeyCache)
        ensures
            c@ == Seq::<KeyView>::empty(),
            hashes_unique(c@),
    {
        let c = KeyCache { keys: Vec::new() };
        assert(c@ =~= Seq::<KeyView>::empty());
        c
    }

    /// Index of the first record satisfying the hash test.
    fn find_hash(&self, h: &String) -> (i: usize)
        ensures
            i <= self@.len(),
            first_index(self@, has_hash(h@)) == (if i < self@.len() {
                i as int
            } else {
                -1
            }),
    {
        let ghost v = self@;
        let mut i: usize = 0;
        while i < self.keys.len()
            invariant
                i <= self.keys.len(),
                v == key_views(self.keys@),
                forall|a: int| 0 <= a < i ==> !has_hash(h@)(#[trigger] v[a]),
            ensures
                i <= self.keys.len(),
                forall|a: int| 0 <= a < i ==> !has_hash(h@)(#[trigger] v[a]),
                i < self.keys.len() ==> has_hash(h@)(v[i as int]),
            decreases self.keys.len() - i,
        {
            if self.keys[i].key_hash == *h {
                break;
            }
            assert(!has_hash(h@)(v[i as int]));
            i = i + 1;
        }
        proof {
            lemma_first_index(v, has_hash(h@), i as int);
        }
        i
    }

    /// Stores `k` under its hash, replacing the record with that hash.
    pub fn insert(&mut self, k: KeyRecord)
        ensures
            final(self)@ == put_key(old(self)@, k@),
            hashes_unique(old(self)@) ==> hashes_unique(final(self)@),
    {
        proof {
            lemma_put_key_keeps_unique(self@, k@);
        }
        let i = self.find_hash(&k.key_hash);
        let ghost v = self@;
        let ghost kv = k@;
        if i < self.keys.len() {
            self.keys.set(i, k);
        } else {
            self.keys.push(k);
        }
        assert(self@ =~= put_key(v, kv));
    }

    /// The record of hash `h`, when it is active at `now`.
    pub fn find_active(&self, h: &String, now: u64) -> (r: Option<KeyRecord>)
        ensures
            match cached_active(self@, h@, now) {
                Some(k) => r matches Some(x) && x@ == k,
                None => r is None,
            },
    {
        let i = self.find_hash(h);
        if i < self.keys.len() && self.keys[i].is_active(now) {
            Some(self.keys[i].duplicate())
        } else {
            None
        }
    }

    /// Whether some platform key is active at `now`.
    pub fn has_active_platform_key(&self, now: u64) -> (r: bool)
        ensures
            r == exists|i: int|
                0 <= i < self@.len() && (#[trigger] self@[i]).role == Role::Platform && key_active(
                    self@[i],
                    now,
                ),
    {
        let ghost v = self@;
        for i in 0..self.keys.len()
            invariant
                v == self@,
                v == key_views(self.keys@),
                forall|a: int|
                    0 <= a < i ==> !((#[trigger] v[a]).role == Role::Platform && key_active(v[a], now)),
        {
            if self.keys[i].role == Role::Platform && self.keys[i].is_active(now) {
                assert(v[i as int].role == Role::Platform && key_active(v[i as int], now));
                return true;
            }
        }
        false
    }

    /// The records of tenant `t`.
    fn select(&self, t: &String) -> (r: Vec<KeyRecord>)
        ensures
            key_views(r@) == keep(self@, of_tenant(t@)),
    {
        let ghost v = self@;
        let mut r: Vec<KeyRecord> = Vec::new();
        for i in 0..self.keys.len()
            invariant
                v == self@,
                v == key_views(self.keys@),
                key_views(r@) == keep(v.take(i as int), of_tenant(t@)),
        {
            proof {
                lemma_keep_step(v, of_tenant(t@), i as int);
            }
            let k = &self.keys[i];
            let hit = match &k.tenant_id {
                Some(x) => *x == *t,
                None => false,
            };
            if hit {
                let ghost before = key_views(r@);
                r.push(k.duplicate());
                assert(key_views(r@) =~= before.push(v[i as int]));
            }
        }
        assert(v.take(v.len() as int) =~= v);
        r
    }

    /// Keys belonging to tenant `t` (never platform keys, which have none).
    pub fn list_keys(&self, t: &str) -> (r: Vec<KeyRecord>)
        ensures
            key_views(r@) == keep(self@, of_tenant(t@)),
    {
        self.select(&t.to_string())
    }

    /// The hash of tenant `t`'s key `id`, if there is one.
    pub fn find_tenant_key(&self, t: &str, id: &str) -> (r: Option<String>)
        ensures
            ({
                let i = first_index(self@, of_tenant_with_id(t@, id@));
                if i >= 0 {
                    r matches Some(h) && h@ == self@[i].key_hash
                } else {
                    r is None
                }
            }),
    {
        let ts = t.to_string();
        let ids = id.to_string();
        let ghost v = self@;
        let ghost p = of_tenant_with_id(t@, id@);
        let mut i: usize = 0;
        while i < self.keys.len()
            invariant
                i <= self.keys.len(),
                v == key_views(self.keys@),
                ts@ == t@,
                ids@ == id@,
                p == of_tenant_with_id(t@, id@),
                forall|a: int| 0 <= a < i ==> !p(#[trigger] v[a]),
            ensures
                i <= self.keys.len(),
                forall|a: int| 0 <= a < i ==> !p(#[trigger] v[a]),
                i < self.keys.len() ==> p(v[i as int]),
            decreases self.keys.len() - i,
        {
            let k = &self.keys[i];
            assert(v[i as int] == k@);
            let same_tenant = match &k.tenant_id {
                Some(x) => *x == ts,
                None => false,
            };
            if k.id == ids && same_tenant {
                break;
            }
            assert(!p(v[i as int]));
            i = i + 1;
        }
        proof {
            lemma_first_index(v, p, i as int);
        }
        if i < self.keys.len() {
            Some(self.keys[i].key_hash.clone())
        } else {
            None
        }
    }

    /// Marks the record of hash `h` revoked at `at`, unless it already is
    /// (an already-revoked key keeps its first timestamp).
    pub fn mark_revoked(&mut self, h: &String, at: u64)
        ensures
            final(self)@ == revoke_hash(old(self)@, h@, at),
            hashes_unique(old(self)@) ==> hashes_unique(final(self)@),
    {
        proof {
            lemma_revoke_keeps_unique(self@, h@, at);
        }
        let i = self.find_hash(h);
        let ghost v = self@;
        if i < self.keys.len() && self.keys[i].revoked_at.is_none() {
            let mut k = self.keys[i].duplicate();
            k.revoked_at = Some(at);
            self.keys.set(i, k);
            assert(self@ =~= v.update(i as int, KeyView { revoked_at: Some(at), ..v[i as int] }));
        }
    }

    /// Moves the record of hash `old_hash` to `new_hash`, clearing its last
    /// use; `None` when no record has `old_hash`.
    pub fn rehash(&mut self, old_hash: &String, new_hash: String) -> (r: Option<KeyRecord>)
        ensures
            final(self)@ == rehash_keys(old(self)@, old_hash@, new_hash@),
            ({
                let v = old(self)@;
                let i = first_index(v, has_hash(old_hash@));
                if i >= 0 {
                    r matches Some(x) && x@ == rehashed(v[i], new_hash@)
                } else {
                    r is None
                }
            }),
            hashes_unique(old(self)@) ==> hashes_unique(final(self)@),
    {
        proof {
            lemma_rehash_keeps_unique(self@, old_hash@, new_hash@);
        }
        let i = self.find_hash(old_hash);
        let ghost v = self@;
        if i >= self.keys.len() {
            return None;
        }
        let mut k = self.keys.remove(i);
        assert(self@ =~= v.remove(i as int));
        k.key_hash = new_hash;
        k.last_used_at = None;
        let out = k.duplicate();
        self.insert(k);
        Some(out)
    }

    /// Adopts a record read back from the database under hash `h`: drops
    /// every cached record with the same id (a rotation made elsewhere
    /// changes the hash of an existing id), then stores it.
    pub fn adopt(&mut self, k: KeyRecord)
        ensures
            final(self)@ == put_key(keep(old(self)@, lacks_id(k@.id)), k@),
            hashes_unique(old(self)@) ==> hashes_unique(final(self)@),
    {
        proof {
            lemma_keep_keeps_unique(self@, lacks_id(k@.id));
            lemma_put_key_keeps_unique(keep(self@, lacks_id(k@.id)), k@);
        }
        let ghost v = self@;
        let mut kept: Vec<KeyRecord> = Vec::new();
        let mut rest: Vec<KeyRecord> = Vec::new();
        std::mem::swap(&mut rest, &mut self.keys);
        assert(key_views(rest@) == v);
        let mut i: usize = 0;
        while i < rest.len()
            invariant
                i <= rest.len(),
                key_views(rest@) == v,
                key_views(kept@) == keep(v.take(i as int), lacks_id(k@.id)),
            decreases rest.len() - i,
        {
            proof {
                lemma_keep_step(v, lacks_id(k@.id), i as int);
            }
            if rest[i].id != k.id {
                let ghost before = key_views(kept@);
                kept.push(rest[i].duplicate());
                assert(key_views(kept@) =~= before.push(v[i as int]));
            }
            i = i + 1;
        }
        assert(v.take(v.len() as int) =~= v);
        self.keys = kept;
        self.insert(k);
    }

    /// Records that key `id` was used at `now` (the first record with that
    /// id; ids are unique).
    pub fn touch_last_used(&mut self, id: &str, now: u64)
        ensures
            ({
                let v = old(self)@;
                let i = first_index(v, has_id(id@));
                final(self)@ == (if i >= 0 {
                    v.update(i, KeyView { last_used_at: Some(now), ..v[i] })
                } else {
                    v
                })
            }),
            hashes_unique(old(self)@) ==> hashes_unique(final(self)@),
    {
        let ids = id.to_string();
        let ghost v = self@;
        let mut i: usize = 0;
        while i < self.keys.len()
            invariant
                i <= self.keys.len(),
                v == key_views(self.keys@),
                ids@ == id@,
                forall|a: int| 0 <= a < i ==> !has_id(id@)(#[trigger] v[a]),
            ensures
                i <= self.keys.len(),
                forall|a: int| 0 <= a < i ==> !has_id(id@)(#[trigger] v[a]),
                i < self.keys.len() ==> has_id(id@)(v[i as int]),
            decreases self.keys.len() - i,
        {
            if self.keys[i].id == ids {
                break;
            }
            i = i + 1;
        }
        proof {
            lemma_first_index(v, has_id(id@), i as int);
        }
        if i < self.keys.len() {
            let mut k = self.keys[i].duplicate();
            k.last_used_at = Some(now);
            self.keys.set(i, k);
            assert(self@ =~= v.update(i as int, KeyView { last_used_at: Some(now), ..v[i as int] }));
            assert(hashes_unique(v) ==> hashes_unique(self@)) by {
                if hashes_unique(v) {
                    assert forall|a: int, b: int|
                        0 <= a < self@.len() && 0 <= b < self@.len() && a != b implies (
                        #[trigger] self@[a]).key_hash != (#[trigger] self@[b]).key_hash by {
                        assert(self@[a].key_hash == v[a].key_hash);
                        assert(self@[b].key_hash == v[b].key_hash);
                    }
                }
            }
        }
    }

    /// The keys `reset_bootstrap_platform_key` may act on at `now`.
    pub fn bootstrap_keys(&self, now: u64) -> (r: Vec<KeyRecord>)
        ensures
            key_views(r@) == keep(self@, is_bootstrap_key(now)),
    {
        let ghost v = self@;
        let boot = "bootstrap".to_string();
        let mut r: Vec<KeyRecord> = Vec::new();
        for i in 0..self.keys.len()
            invariant
                v == self@,
                v == key_views(self.keys@),
                boot@ == "bootstrap"@,
                key_views(r@) == keep(v.take(i as int), is_bootstrap_key(now)),
        {
            proof {
                lemma_keep_step(v, is_bootstrap_key(now), i as int);
            }
            let k = &self.keys[i];
            if k.role == Role::Platform && k.label == boot && k.tenant_id.is_none() && k.is_active(
                now,
            ) {
                let ghost before = key_views(r@);
                r.push(k.duplicate());
                assert(key_views(r@) =~= before.push(v[i as int]));
            }
        }
        assert(v.take(v.len() as int) =~= v);
        r
    }
}

/// What `reset_bootstrap_platform_key` does with the bootstrap keys it found.
#[derive(Debug)]
pub enum BootstrapReset {
    /// None exists: create one.
    Create,
    /// Exactly one exists: rotate it (its hash and id).
    Rotate { key_hash: String, id: String },
}

/// The refusal of a reset that would have to pick among `n` bootstrap keys.
pub open spec fn ambiguous_reset_message(n: nat) -> Seq<char> {
    "found "@ + crate::text::dec_digits(n) + " active platform keys labeled 'bootstrap'; reset is ambiguous"@
}

/// The reset is unambiguous only with at most one bootstrap key: none means
/// create, one means rotate that one, more is refused.
pub fn decide_bootstrap_reset(found: &Vec<KeyRecord>) -> (r: Result<BootstrapReset, String>)
    ensures
        found.len() == 0 ==> r matches Ok(BootstrapReset::Create),
        found.len() == 1 ==> (r matches Ok(BootstrapReset::Rotate { key_hash, id }) && key_hash@
            == found@[0]@.key_hash && id@ == found@[0]@.id),
        found.len() > 1 ==> (r matches Err(m) && m@ == ambiguous_reset_message(found.len() as nat)),
{
    if found.len() == 0 {
        Ok(BootstrapReset::Create)
    } else if found.len() == 1 {
        Ok(BootstrapReset::Rotate { key_hash: found[0].key_hash.clone(), id: found[0].id.clone() })
    } else {
        let mut m = "found ".to_string();
        crate::text::push_zero_padded(&mut m, found.len() as u64, 1);
        push_all(&mut m, &chars_of(" active platform keys labeled 'bootstrap'; reset is ambiguous"));
        Err(m)
    }
}

} // verus!

verus! {

// ---- The tenant cache and the request quota ---------------------------------------

pub open spec fn tenant_views(s: Seq<TenantInfo>) -> Seq<TenantView> {
    s.map_values(|t: TenantInfo| t@)
}

pub open spec fn tenant_has_id(id: Seq<char>) -> spec_fn(TenantView) -> bool {
    |t: TenantView| t.id == id
}

/// The quota admits one more request: `0` is unlimited, otherwise the count
/// must still be under the limit.
pub open spec fn quota_admits(t: TenantView) -> bool {
    t.quota_limit == 0 || t.request_count < t.quota_limit
}

/// A partial update of a tenant; `None` leaves a field as it is. The period
/// fields take `Some(None)` to clear a bound.
#[derive(Debug)]
pub struct TenantPatch {
    pub name: Option<String>,
    pub language: Option<String>,
    pub quota_limit: Option<u64>,
    pub request_count: Option<u64>,
    pub period_start: Option<Option<u64>>,
    pub period_end: Option<Option<u64>>,
}

pub open spec fn apply_patch(t: TenantView, p: TenantPatch) -> TenantView {
    TenantView {
        name: match p.name {
            Some(n) => n@,
            None => t.name,
        },
        language: match p.language {
            Some(l) => l@,
            None => t.language,
        },
        quota_limit: match p.quota_limit {
            Some(q) => q,
            None => t.quota_limit,
        },
        request_count: match p.request_count {
            Some(c) => c,
            None => t.request_count,
        },
        period_start: match p.period_start {
            Some(v) => v,
            None => t.period_start,
        },
        period_end: match p.period_end {
            Some(v) => v,
            None => t.period_end,
        },
        ..t
    }
}

/// Tenant `id` may make requests: it is unknown here, or not suspended.
pub open spec fn tenant_admitted(v: Seq<TenantView>, id: Seq<char>) -> bool {
    let i = first_index(v, tenant_has_id(id));
    i < 0 || v[i].suspended_at is None
}

/// The tenants after setting (`Some`) or clearing (`None`) the suspension
/// of tenant `id`.
pub open spec fn suspend_tenant(v: Seq<TenantView>, id: Seq<char>, at: Option<u64>) -> Seq<
    TenantView,
> {
    let i = first_index(v, tenant_has_id(id));
    if i >= 0 {
        v.update(i, TenantView { suspended_at: at, ..v[i] })
    } else {
        v
    }
}

/// In-memory copy of the stored tenants, one record per id.
pub struct TenantCache {
    tenants: Vec<TenantInfo>,
}

impl View for TenantCache {
    type V = Seq<TenantView>;

    closed spec fn view(&self) -> Seq<TenantView> {
        tenant_views(self.tenants@)
    }
}

impl TenantCache {
    pub fn new() -> (c: TenantCache)
        ensures
            c@ == Seq::<TenantView>::empty(),
    {
        let c = TenantCache { tenants: Vec::new() };
        assert(c@ =~= Seq::<TenantView>::empty());
        c
    }

    fn find(&self, id: &str) -> (i: usize)
        ensures
            i <= self@.len(),
            first_index(self@, tenant_has_id(id@)) == (if i < self@.len() {
                i as int
            } else {
                -1
            }),
    {
        let ids = id.to_string();
        let ghost v = self@;
        let mut i: usize = 0;
        while i < self.tenants.len()
            invariant
                i <= self.tenants.len(),
                v == tenant_views(self.tenants@),
                ids@ == id@,
                forall|a: int| 0 <= a < i ==> !tenant_has_id(id@)(#[trigger] v[a]),
            ensures
                i <= self.tenants.len(),
                forall|a: int| 0 <= a < i ==> !tenant_has_id(id@)(#[trigger] v[a]),
                i < self.tenants.len() ==> tenant_has_id(id@)(v[i as int]),
            decreases self.tenants.len() - i,
        {
            if self.tenants[i].id == ids {
                break;
            }
            i = i + 1;
        }
        proof {
            lemma_first_index(v, tenant_has_id(id@), i as int);
        }
        i
    }

    /// Stores `t` under its id, replacing the tenant with that id.
    pub fn insert(&mut self, t: TenantInfo)
        ensures
            final(self)@ == put_at(old(self)@, first_index(old(self)@, tenant_has_id(t@.id)), t@),
    {
        let i = self.find(t.id.as_str());
        let ghost v = self@;
        let ghost tv = t@;
        if i < self.tenants.len() {
            self.tenants.set(i, t);
        } else {
            self.tenants.push(t);
        }
        assert(self@ =~= put_at(v, first_index(v, tenant_has_id(tv.id)), tv));
    }

    /// The tenant `id`, if cached.
    pub fn get_tenant(&self, id: &str) -> (r: Option<TenantInfo>)
        ensures
            ({
                let i = first_index(self@, tenant_has_id(id@));
                if i >= 0 {
                    r matches Some(t) && t@ == self@[i]
                } else {
                    r is None
                }
            }),
    {
        let i = self.find(id);
        if i < self.tenants.len() {
            Some(self.tenants[i].duplicate())
        } else {
            None
        }
    }

    /// Every cached tenant.
    pub fn list_tenants(&self) -> (r: Vec<TenantInfo>)
        ensures
            tenant_views(r@) == self@,
    {
        let mut r: Vec<TenantInfo> = Vec::new();
        for i in 0..self.tenants.len()
            invariant
                tenant_views(r@) == tenant_views(self.tenants@).take(i as int),
        {
            let ghost before = tenant_views(r@);
            r.push(self.tenants[i].duplicate());
            assert(tenant_views(r@) =~= before.push(self.tenants@[i as int]@));
            assert(tenant_views(r@) =~= tenant_views(self.tenants@).take(i + 1));
        }
        assert(tenant_views(self.tenants@).take(self.tenants.len() as int) =~= self@);
        r
    }

    /// Applies `patch` to tenant `id`; returns the updated tenant, or `None`
    /// (and changes nothing) when there is no such tenant.
    pub fn update_tenant(&mut self, id: &str, patch: &TenantPatch) -> (r: Option<TenantInfo>)
        ensures
            ({
                let v = old(self)@;
                let i = first_index(v, tenant_has_id(id@));
                if i >= 0 {
                    &&& r matches Some(t) && t@ == apply_patch(v[i], *patch)
                    &&& final(self)@ == v.update(i, apply_patch(v[i], *patch))
                } else {
                    r is None && final(self)@ == v
                }
            }),
    {
        let i = self.find(id);
        let ghost v = self@;
        if i >= self.tenants.len() {
            return None;
        }
        let mut t = self.tenants[i].duplicate();
        match &patch.name {
            Some(n) => {
                t.name = n.clone();
            },
            None => {},
        }
        match &patch.language {
            Some(l) => {
                t.language = l.clone();
            },
            None => {},
        }
        match patch.quota_limit {
            Some(q) => {
                t.quota_limit = q;
            },
            None => {},
        }
        match patch.request_count {
            Some(c) => {
                t.request_count = c;
            },
            None => {},
        }
        match patch.period_start {
            Some(p) => {
                t.period_start = p;
            },
            None => {},
        }
        match patch.period_end {
            Some(p) => {
                t.period_end = p;
            },
            None => {},
        }
        let out = t.duplicate();
        self.tenants.set(i, t);
        assert(self@ =~= v.update(i as int, apply_patch(v[i as int], *patch)));
        Some(out)
    }

    /// The hot-path quota check: when tenant `id` exists and its quota admits
    /// one more request, counts it and returns the new count; otherwise
    /// changes nothing and returns `None` (an unknown tenant fails closed).
    /// Check and increment are one step, so no two callers can both be
    /// admitted into the last unit of quota.
    pub fn try_consume_quota(&mut self, id: &str) -> (r: Option<u64>)
        ensures
            ({
                let v = old(self)@;
                let i = first_index(v, tenant_has_id(id@));
                if i >= 0 && quota_admits(v[i]) && v[i].request_count < u64::MAX {
                    &&& r == Some((v[i].request_count + 1) as u64)
                    &&& final(self)@ == v.update(
                        i,
                        TenantView { request_count: (v[i].request_count + 1) as u64, ..v[i] },
                    )
                } else {
                    r is None && final(self)@ == v
                }
            }),
    {
        let i = self.find(id);
        let ghost v = self@;
        if i >= self.tenants.len() {
            return None;
        }
        let limit = self.tenants[i].quota_limit;
        let count = self.tenants[i].request_count;
        if limit > 0 && count >= limit {
            return None;
        }
        if count == u64::MAX {
            return None;
        }
        let mut t = self.tenants[i].duplicate();
        t.request_count = count + 1;
        self.tenants.set(i, t);
        assert(self@ =~= v.update(
            i as int,
            TenantView { request_count: (count + 1) as u64, ..v[i as int] },
        ));
        Some(count + 1)
    }

    /// Sets or clears tenant `id`'s suspension; `false` when there is no
    /// such tenant.
    pub fn set_suspended(&mut self, id: &str, at: Option<u64>) -> (r: bool)
        ensures
            final(self)@ == suspend_tenant(old(self)@, id@, at),
            r == (first_index(old(self)@, tenant_has_id(id@)) >= 0),
    {
        let i = self.find(id);
        let ghost v = self@;
        if i >= self.tenants.len() {
            return false;
        }
        let mut t = self.tenants[i].duplicate();
        t.suspended_at = at;
        self.tenants.set(i, t);
        assert(self@ =~= v.update(i as int, TenantView { suspended_at: at, ..v[i as int] }));
        true
    }
}

/// Law: suspending a tenant shuts it out and reactivating lets it back in,
/// while every other tenant is admitted exactly as before.
pub proof fn lemma_suspension_gates_tenant(
    v: Seq<TenantView>,
    id: Seq<char>,
    at: Option<u64>,
    id2: Seq<char>,
)
    ensures
        first_index(v, tenant_has_id(id)) >= 0 ==> tenant_admitted(suspend_tenant(v, id, at), id)
            == (at is None),
        first_index(v, tenant_has_id(id)) < 0 ==> suspend_tenant(v, id, at) == v,
        id2 != id ==> tenant_admitted(suspend_tenant(v, id, at), id2) == tenant_admitted(v, id2),
{
    let p = tenant_has_id(id);
    let i = first_index(v, p);
    lemma_first_index_bounds(v, p);
    let p2 = tenant_has_id(id2);
    lemma_first_index_bounds(v, p2);
    if i >= 0 {
        let x = TenantView { suspended_at: at, ..v[i] };
        lemma_first_index_update(v, p, i, x);
        lemma_first_index_update(v, p2, i, x);
    }
}

/// Law: the quota never overshoots. A tenant whose count is within its
/// limit stays within it after an admitted request, `0` never blocks, and a
/// tenant at or over its limit is refused.
pub proof fn lemma_quota_never_overshoots(t: TenantView)
    requires
        t.quota_limit == 0 || t.request_count <= t.quota_limit,
    ensures
        quota_admits(t) ==> (t.quota_limit == 0 || t.request_count + 1 <= t.quota_limit),
        t.quota_limit == 0 ==> quota_admits(t),
        t.quota_limit > 0 && t.request_count >= t.quota_limit ==> !quota_admits(t),
{
}

} // verus!

verus! {

// ---- Origins and dictionaries ----------------------------------------------------

pub open spec fn origin_views(s: Seq<OriginInfo>) -> Seq<OriginView> {
    s.map_values(|o: OriginInfo| o@)
}

pub open spec fn origin_of(t: Seq<char>, o: Seq<char>) -> spec_fn(OriginView) -> bool {
    |x: OriginView| x.tenant_id == t && x.origin == o
}

pub open spec fn not_origin_of(t: Seq<char>, o: Seq<char>) -> spec_fn(OriginView) -> bool {
    |x: OriginView| !(x.tenant_id == t && x.origin == o)
}

pub open spec fn origin_tenant(t: Seq<char>) -> spec_fn(OriginView) -> bool {
    |x: OriginView| x.tenant_id == t
}

/// Some tenant has registered `o`.
pub open spec fn registered(s: Seq<OriginView>, o: Seq<char>) -> bool {
    exists|i: int| 0 <= i < s.len() && (#[trigger] s[i]).origin == o
}

/// Tenant `t` has registered `o`.
pub open spec fn owns(s: Seq<OriginView>, t: Seq<char>, o: Seq<char>) -> bool {
    exists|i: int| 0 <= i < s.len() && (#[trigger] s[i]).tenant_id == t && s[i].origin == o
}

/// No two records share a tenant and an origin: what the cache keeps.
pub open spec fn pairs_unique(s: Seq<OriginView>) -> bool {
    forall|i: int, j: int|
        0 <= i < s.len() && 0 <= j < s.len() && i != j ==> !((#[trigger] s[i]).tenant_id
            == (#[trigger] s[j]).tenant_id && s[i].origin == s[j].origin)
}

/// Tenant `t`'s registration with id `id`.
pub open spec fn registration(t: Seq<char>, id: Seq<char>) -> spec_fn(OriginView) -> bool {
    |x: OriginView| x.tenant_id == t && x.id == id
}

/// The registrations after revoking tenant `t`'s registration `id`, and
/// whether there was one.
pub open spec fn revoke_registration(s: Seq<OriginView>, t: Seq<char>, id: Seq<char>) -> (
    bool,
    Seq<OriginView>,
) {
    let i = first_index(s, registration(t, id));
    if i >= 0 {
        (true, keep(s, not_origin_of(t, s[i].origin)))
    } else {
        (false, s)
    }
}

/// In-memory copy of the registered origins, one record per tenant and
/// origin.
pub struct OriginCache {
    origins: Vec<OriginInfo>,
}

impl View for OriginCache {
    type V = Seq<OriginView>;

    closed spec fn view(&self) -> Seq<OriginView> {
        origin_views(self.origins@)
    }
}

impl OriginCache {
    pub fn new() -> (c: OriginCache)
        ensures
            c@ == Seq::<OriginView>::empty(),
            pairs_unique(c@),
    {
        let c = OriginCache { origins: Vec::new() };
        assert(c@ =~= Seq::<OriginView>::empty());
        c
    }

    /// Registers `o` for its tenant, replacing that tenant's record of the
    /// same origin.
    pub fn register_origin(&mut self, o: OriginInfo)
        ensures
            final(self)@ == put_at(
                old(self)@,
                first_index(old(self)@, origin_of(o@.tenant_id, o@.origin)),
                o@,
            ),
            pairs_unique(old(self)@) ==> pairs_unique(final(self)@),
    {
        proof {
            lemma_register_keeps_pairs_unique(self@, o@);
        }
        let ghost v = self@;
        let ghost p = origin_of(o@.tenant_id, o@.origin);
        let mut i: usize = 0;
        while i < self.origins.len()
            invariant
                i <= self.origins.len(),
                v == origin_views(self.origins@),
                p == origin_of(o@.tenant_id, o@.origin),
                forall|a: int| 0 <= a < i ==> !p(#[trigger] v[a]),
            ensures
                i <= self.origins.len(),
                forall|a: int| 0 <= a < i ==> !p(#[trigger] v[a]),
                i < self.origins.len() ==> p(v[i as int]),
            decreases self.origins.len() - i,
        {
            if self.origins[i].tenant_id == o.tenant_id && self.origins[i].origin == o.origin {
                break;
            }
            i = i + 1;
        }
        proof {
            lemma_first_index(v, p, i as int);
        }
        let ghost ov = o@;
        if i < self.origins.len() {
            self.origins.set(i, o);
        } else {
            self.origins.push(o);
        }
        assert(self@ =~= put_at(v, first_index(v, p), ov));
    }

    /// The origins of tenant `t`.
    pub fn list_origins(&self, t: &str) -> (r: Vec<OriginInfo>)
        ensures
            origin_views(r@) == keep(self@, origin_tenant(t@)),
    {
        let ts = t.to_string();
        let ghost v = self@;
        let mut r: Vec<OriginInfo> = Vec::new();
        for i in 0..self.origins.len()
            invariant
                v == self@,
                v == origin_views(self.origins@),
                ts@ == t@,
                origin_views(r@) == keep(v.take(i as int), origin_tenant(t@)),
        {
            proof {
                lemma_keep_step(v, origin_tenant(t@), i as int);
            }
            if self.origins[i].tenant_id == ts {
                let ghost before = origin_views(r@);
                r.push(self.origins[i].duplicate());
                assert(origin_views(r@) =~= before.push(v[i as int]));
            }
        }
        assert(v.take(v.len() as int) =~= v);
        r
    }

    /// Drops tenant `t`'s registration of `origin`; other tenants'
    /// registrations of the same origin stay.
    pub fn revoke_origin(&mut self, t: &str, origin: &str)
        ensures
            final(self)@ == keep(old(self)@, not_origin_of(t@, origin@)),
            pairs_unique(old(self)@) ==> pairs_unique(final(self)@),
    {
        proof {
            lemma_keep_keeps_pairs_unique(self@, not_origin_of(t@, origin@));
        }
        let ts = t.to_string();
        let os = origin.to_string();
        let ghost v = self@;
        let mut rest: Vec<OriginInfo> = Vec::new();
        std::mem::swap(&mut rest, &mut self.origins);
        let mut kept: Vec<OriginInfo> = Vec::new();
        let mut i: usize = 0;
        while i < rest.len()
            invariant
                i <= rest.len(),
                origin_views(rest@) == v,
                ts@ == t@,
                os@ == origin@,
                origin_views(kept@) == keep(v.take(i as int), not_origin_of(t@, origin@)),
            decreases rest.len() - i,
        {
            proof {
                lemma_keep_step(v, not_origin_of(t@, origin@), i as int);
            }
            if !(rest[i].tenant_id == ts && rest[i].origin == os) {
                let ghost before = origin_views(kept@);
                kept.push(rest[i].duplicate());
                assert(origin_views(kept@) =~= before.push(v[i as int]));
            }
            i = i + 1;
        }
        assert(v.take(v.len() as int) =~= v);
        self.origins = kept;
    }

    /// Revokes tenant `t`'s registration `id`; `false` when the tenant has
    /// no registration with that id (another tenant's id included).
    pub fn revoke_origin_id(&mut self, t: &str, id: &str) -> (r: bool)
        ensures
            (r, final(self)@) == revoke_registration(old(self)@, t@, id@),
            pairs_unique(old(self)@) ==> pairs_unique(final(self)@),
    {
        let ts = t.to_string();
        let ids = id.to_string();
        let ghost v = self@;
        let ghost p = registration(t@, id@);
        let mut i: usize = 0;
        while i < self.origins.len()
            invariant
                i <= self.origins.len(),
                v == origin_views(self.origins@),
                ts@ == t@,
                ids@ == id@,
                p == registration(t@, id@),
                forall|a: int| 0 <= a < i ==> !p(#[trigger] v[a]),
            ensures
                i <= self.origins.len(),
                forall|a: int| 0 <= a < i ==> !p(#[trigger] v[a]),
                i < self.origins.len() ==> p(v[i as int]),
            decreases self.origins.len() - i,
        {
            if self.origins[i].tenant_id == ts && self.origins[i].id == ids {
                break;
            }
            i = i + 1;
        }
        proof {
            lemma_first_index(v, p, i as int);
        }
        if i < self.origins.len() {
            let origin = self.origins[i].origin.clone();
            assert(origin@ == v[i as int].origin);
            self.revoke_origin(t, origin.as_str());
            true
        } else {
            false
        }
    }

    /// Whether any tenant has registered `origin` (the CORS predicate).
    pub fn is_registered_origin(&self, origin: &str) -> (r: bool)
        ensures
            r == registered(self@, origin@),
    {
        let os = origin.to_string();
        let ghost v = self@;
        for i in 0..self.origins.len()
            invariant
                v == self@,
                v == origin_views(self.origins@),
                os@ == origin@,
                forall|a: int| 0 <= a < i ==> (#[trigger] v[a]).origin != origin@,
        {
            if self.origins[i].origin == os {
                assert(v[i as int].origin == origin@);
                return true;
            }
        }
        false
    }

    /// Whether tenant `t` has registered `origin`.
    pub fn tenant_owns_origin(&self, t: &str, origin: &str) -> (r: bool)
        ensures
            r == owns(self@, t@, origin@),
    {
        let ts = t.to_string();
        let os = origin.to_string();
        let ghost v = self@;
        for i in 0..self.origins.len()
            invariant
                v == self@,
                v == origin_views(self.origins@),
                ts@ == t@,
                os@ == origin@,
                forall|a: int|
                    0 <= a < i ==> !((#[trigger] v[a]).tenant_id == t@ && v[a].origin == origin@),
        {
            if self.origins[i].tenant_id == ts && self.origins[i].origin == os {
                assert(v[i as int].tenant_id == t@ && v[i as int].origin == origin@);
                return true;
            }
        }
        false
    }
}

pub proof fn lemma_keep_contains<A>(s: Seq<A>, p: spec_fn(A) -> bool, i: int)
    requires
        0 <= i < s.len(),
        p(s[i]),
    ensures
        exists|j: int| 0 <= j < keep(s, p).len() && keep(s, p)[j] == s[i],
    decreases s.len(),
{
    if i < s.len() - 1 {
        lemma_keep_contains(s.drop_last(), p, i);
        let j = choose|j: int|
            0 <= j < keep(s.drop_last(), p).len() && keep(s.drop_last(), p)[j] == s.drop_last()[i];
        assert(keep(s, p)[j] == s[i]);
    } else {
        assert(keep(s, p)[keep(s, p).len() - 1] == s[i]);
    }
}

pub proof fn lemma_keep_subset<A>(s: Seq<A>, p: spec_fn(A) -> bool, j: int)
    requires
        0 <= j < keep(s, p).len(),
    ensures
        exists|i: int| 0 <= i < s.len() && s[i] == keep(s, p)[j] && p(s[i]),
    decreases s.len(),
{
    if s.len() > 0 {
        let t = s.drop_last();
        if p(s.last()) && j == keep(s, p).len() - 1 {
            assert(s[s.len() - 1] == keep(s, p)[j]);
        } else {
            lemma_keep_subset(t, p, j);
            let i = choose|i: int| 0 <= i < t.len() && t[i] == keep(t, p)[j] && p(t[i]);
            assert(s[i] == t[i]);
        }
    }
}

/// Law: revoking one tenant's registration leaves an origin registered
/// exactly when some other tenant still owns it, and never touches what
/// other tenants own.
pub proof fn lemma_revoke_origin_keeps_other_owners(
    s: Seq<OriginView>,
    t: Seq<char>,
    o: Seq<char>,
    t2: Seq<char>,
    o2: Seq<char>,
)
    ensures
        registered(keep(s, not_origin_of(t, o)), o) <==> exists|i: int|
            0 <= i < s.len() && (#[trigger] s[i]).origin == o && s[i].tenant_id != t,
        !owns(keep(s, not_origin_of(t, o)), t, o),
        !(t2 == t && o2 == o) ==> (owns(keep(s, not_origin_of(t, o)), t2, o2) <==> owns(s, t2, o2)),
{
    let k = keep(s, not_origin_of(t, o));
    if registered(k, o) {
        let j = choose|j: int| 0 <= j < k.len() && (#[trigger] k[j]).origin == o;
        lemma_keep_subset(s, not_origin_of(t, o), j);
    }
    if exists|i: int| 0 <= i < s.len() && (#[trigger] s[i]).origin == o && s[i].tenant_id != t {
        let i = choose|i: int| 0 <= i < s.len() && (#[trigger] s[i]).origin == o && s[i].tenant_id != t;
        lemma_keep_contains(s, not_origin_of(t, o), i);
        let j = choose|j: int| 0 <= j < k.len() && k[j] == s[i];
        assert(k[j].origin == o);
    }
    if owns(k, t, o) {
        let j = choose|j: int| 0 <= j < k.len() && (#[trigger] k[j]).tenant_id == t && k[j].origin == o;
        lemma_keep_subset(s, not_origin_of(t, o), j);
    }
    if !(t2 == t && o2 == o) {
        if owns(k, t2, o2) {
            let j = choose|j: int|
                0 <= j < k.len() && (#[trigger] k[j]).tenant_id == t2 && k[j].origin == o2;
            lemma_keep_subset(s, not_origin_of(t, o), j);
        }
        if owns(s, t2, o2) {
            let i = choose|i: int| 0 <= i < s.len() && (#[trigger] s[i]).tenant_id == t2 && s[i].origin == o2;
            lemma_keep_contains(s, not_origin_of(t, o), i);
            let j = choose|j: int| 0 <= j < k.len() && k[j] == s[i];
            assert(k[j].tenant_id == t2 && k[j].origin == o2);
        }
    }
}

pub open spec fn dictionary_views(s: Seq<DictionaryInfo>) -> Seq<DictionaryView> {
    s.map_values(|d: DictionaryInfo| d@)
}

pub open spec fn has_code(c: Seq<char>) -> spec_fn(DictionaryView) -> bool {
    |d: DictionaryView| d.code == c
}

/// In-memory copy of the registered dictionaries, one record per code.
pub struct DictionaryCache {
    dictionaries: Vec<DictionaryInfo>,
}

impl View for DictionaryCache {
    type V = Seq<DictionaryView>;

    closed spec fn view(&self) -> Seq<DictionaryView> {
        dictionary_views(self.dictionaries@)
    }
}

impl DictionaryCache {
    pub fn new() -> (c: DictionaryCache)
        ensures
            c@ == Seq::<DictionaryView>::empty(),
    {
        let c = DictionaryCache { dictionaries: Vec::new() };
        assert(c@ =~= Seq::<DictionaryView>::empty());
        c
    }

    fn find(&self, code: &str) -> (i: usize)
        ensures
            i <= self@.len(),
            first_index(self@, has_code(code@)) == (if i < self@.len() {
                i as int
            } else {
                -1
            }),
    {
        let cs = code.to_string();
        let ghost v = self@;
        let mut i: usize = 0;
        while i < self.dictionaries.len()
            invariant
                i <= self.dictionaries.len(),
                v == dictionary_views(self.dictionaries@),
                cs@ == code@,
                forall|a: int| 0 <= a < i ==> !has_code(code@)(#[trigger] v[a]),
            ensures
                i <= self.dictionaries.len(),
                forall|a: int| 0 <= a < i ==> !has_code(code@)(#[trigger] v[a]),
                i < self.dictionaries.len() ==> has_code(code@)(v[i as int]),
            decreases self.dictionaries.len() - i,
        {
            if self.dictionaries[i].code == cs {
                break;
            }
            i = i + 1;
        }
        proof {
            lemma_first_index(v, has_code(code@), i as int);
        }
        i
    }

    /// Stores `d` under its code, replacing the record with that code.
    pub fn register_dictionary(&mut self, d: DictionaryInfo)
        ensures
            final(self)@ == put_at(old(self)@, first_index(old(self)@, has_code(d@.code)), d@),
    {
        let i = self.find(d.code.as_str());
        let ghost v = self@;
        let ghost dv = d@;
        if i < self.dictionaries.len() {
            self.dictionaries.set(i, d);
        } else {
            self.dictionaries.push(d);
        }
        assert(self@ =~= put_at(v, first_index(v, has_code(dv.code)), dv));
    }

    /// The dictionary registered under `code`, if any.
    pub fn get_dictionary(&self, code: &str) -> (r: Option<DictionaryInfo>)
        ensures
            ({
                let i = first_index(self@, has_code(code@));
                if i >= 0 {
                    r matches Some(d) && d@ == self@[i]
                } else {
                    r is None
                }
            }),
    {
        let i = self.find(code);
        if i < self.dictionaries.len() {
            Some(self.dictionaries[i].duplicate())
        } else {
            None
        }
    }

    /// Every registered dictionary.
    pub fn list_dictionaries(&self) -> (r: Vec<DictionaryInfo>)
        ensures
            dictionary_views(r@) == self@,
    {
        let mut r: Vec<DictionaryInfo> = Vec::new();
        for i in 0..self.dictionaries.len()
            invariant
                dictionary_views(r@) == dictionary_views(self.dictionaries@).take(i as int),
        {
            let ghost before = dictionary_views(r@);
            r.push(self.dictionaries[i].duplicate());
            assert(dictionary_views(r@) =~= before.push(self.dictionaries@[i as int]@));
            assert(dictionary_views(r@) =~= dictionary_views(self.dictionaries@).take(i + 1));
        }
        assert(dictionary_views(self.dictionaries@).take(self.dictionaries.len() as int) =~= self@);
        r
    }
}

} // verus!

verus! {

// ---- New records -----------------------------------------------------------------

/// A new tenant: the language defaults to `en_US` and the quota to `0`
/// (unlimited); nothing is counted yet and it is not suspended.
pub fn new_tenant_record(
    id: String,
    name: String,
    language: Option<String>,
    quota_limit: Option<u64>,
    period_start: Option<u64>,
    period_end: Option<u64>,
    created_at: u64,
) -> (t: TenantInfo)
    ensures
        t@ == (TenantView {
            id: id@,
            name: name@,
            language: match language {
                Some(l) => l@,
                None => crate::config::default_language(),
            },
            quota_limit: match quota_limit {
                Some(q) => q,
                None => 0,
            },
            request_count: 0,
            period_start,
            period_end,
            suspended_at: None,
            created_at,
        }),
{
    let language = match language {
        Some(l) => l,
        None => crate::config::default_language_string(),
    };
    let quota_limit = match quota_limit {
        Some(q) => q,
        None => 0,
    };
    TenantInfo {
        id,
        name,
        language,
        quota_limit,
        request_count: 0,
        period_start,
        period_end,
        suspended_at: None,
        created_at,
    }
}

/// A new API key: a fresh id and raw key, and the record that stores only
/// the raw key's hash.
pub fn new_key(
    tenant_id: Option<String>,
    label: String,
    role: Role,
    expires_at: Option<u64>,
    created_at: u64,
) -> (k: CreatedApiKey)
    ensures
        k.record@.key_hash == hex_lower(sha256_digest(vstd::utf8::encode_utf8(k.raw_key@))),
        k.record@.tenant_id == crate::store::opt_string_view(tenant_id),
        k.record@.label == label@,
        k.record@.role == role,
        k.record@.created_at == created_at,
        k.record@.expires_at == expires_at,
        k.record@.last_used_at is None,
        k.record@.revoked_at is None,
        is_hyphenated_uuid(k.record@.id),
        k.raw_key@.len() == 68,
        k.raw_key@.subrange(0, 4) == "rsk_"@,
        forall|i: int| 4 <= i < 68 ==> is_lower_hex(#[trigger] k.raw_key@[i]),
{
    let id = new_id();
    let raw_key = generate_raw_key();
    let key_hash = hash_key(raw_key.as_str());
    CreatedApiKey {
        record: KeyRecord {
            id,
            tenant_id,
            label,
            role,
            key_hash,
            created_at,
            expires_at,
            last_used_at: None,
            revoked_at: None,
        },
        raw_key,
    }
}

} // verus!

verus! {

// ---- Laws of the key cache ----------------------------------------------------

/// Before the first match, nothing matches.
pub proof fn lemma_first_index_prefix<A>(s: Seq<A>, p: spec_fn(A) -> bool)
    ensures
        forall|a: int| 0 <= a < first_index(s, p) ==> !p(#[trigger] s[a]),
    decreases s.len(),
{
    if s.len() > 0 {
        let t = s.drop_last();
        lemma_first_index_prefix(t, p);
        lemma_first_index_bounds(t, p);
        assert forall|a: int| 0 <= a < first_index(s, p) implies !p(#[trigger] s[a]) by {
            assert(t[a] == s[a]);
        }
    }
}

/// Replacing an element by one that the test judges alike leaves the first
/// match where it was.
pub proof fn lemma_first_index_update<A>(s: Seq<A>, p: spec_fn(A) -> bool, i: int, x: A)
    requires
        0 <= i < s.len(),
        p(x) == p(s[i]),
    ensures
        first_index(s.update(i, x), p) == first_index(s, p),
{
    let u = s.update(i, x);
    let f = first_index(s, p);
    lemma_first_index_bounds(s, p);
    lemma_first_index_prefix(s, p);
    let j = if f >= 0 {
        f
    } else {
        s.len() as int
    };
    assert forall|a: int| 0 <= a < j implies !p(#[trigger] u[a]) by {
        assert(!p(s[a]));
    }
    lemma_first_index(u, p, j);
}

/// Appending keeps an earlier match, or makes the new element the match.
pub proof fn lemma_first_index_push<A>(s: Seq<A>, p: spec_fn(A) -> bool, x: A)
    ensures
        first_index(s.push(x), p) == (if first_index(s, p) >= 0 {
            first_index(s, p)
        } else if p(x) {
            s.len() as int
        } else {
            -1
        }),
{
    assert(s.push(x).drop_last() =~= s);
}

/// Law (read of a write): a key just stored is found under its hash, and
/// authenticates exactly when it is active.
pub proof fn lemma_stored_key_found(v: Seq<KeyView>, k: KeyView, now: u64)
    ensures
        cached_active(put_key(v, k), k.key_hash, now) == (if key_active(k, now) {
            Some(k)
        } else {
            None::<KeyView>
        }),
{
    let p = has_hash(k.key_hash);
    let f = first_index(v, p);
    lemma_first_index_bounds(v, p);
    if f >= 0 {
        lemma_first_index_update(v, p, f, k);
    } else {
        lemma_first_index_push(v, p, k);
    }
}

/// Law: a revoked key never authenticates again.
pub proof fn lemma_revoked_key_rejected(v: Seq<KeyView>, h: Seq<char>, at: u64, now: u64)
    ensures
        cached_active(revoke_hash(v, h, at), h, now) is None,
{
    let p = has_hash(h);
    let f = first_index(v, p);
    lemma_first_index_bounds(v, p);
    if f >= 0 && v[f].revoked_at is None {
        lemma_first_index_update(v, p, f, KeyView { revoked_at: Some(at), ..v[f] });
    }
}

/// Law: revoking one key leaves whether every other key authenticates, and
/// what it authenticates as, unchanged.
pub proof fn lemma_revoke_leaves_other_keys(
    v: Seq<KeyView>,
    h: Seq<char>,
    at: u64,
    h2: Seq<char>,
    now: u64,
)
    requires
        h2 != h,
    ensures
        cached_active(revoke_hash(v, h, at), h2, now) == cached_active(v, h2, now),
{
    let p = has_hash(h);
    let p2 = has_hash(h2);
    let f = first_index(v, p);
    lemma_first_index_bounds(v, p);
    lemma_first_index_bounds(v, p2);
    if f >= 0 && v[f].revoked_at is None {
        let x = KeyView { revoked_at: Some(at), ..v[f] };
        lemma_first_index_update(v, p2, f, x);
    }
}

/// Law: rotation retires the old key at once, and the rotated record (same
/// id, tenant, role and label) authenticates under the new hash exactly when
/// it is active. One record per hash is what the cache keeps.
pub proof fn lemma_rotation_retires_old_key(
    v: Seq<KeyView>,
    old_h: Seq<char>,
    new_h: Seq<char>,
    now: u64,
)
    requires
        hashes_unique(v),
        old_h != new_h,
        first_index(v, has_hash(old_h)) >= 0,
    ensures
        cached_active(rehash_keys(v, old_h, new_h), old_h, now) is None,
        ({
            let k = rehashed(v[first_index(v, has_hash(old_h))], new_h);
            cached_active(rehash_keys(v, old_h, new_h), new_h, now) == (if key_active(k, now) {
                Some(k)
            } else {
                None::<KeyView>
            })
        }),
{
    let p = has_hash(old_h);
    let i = first_index(v, p);
    lemma_first_index_bounds(v, p);
    let w = v.remove(i);
    let k = rehashed(v[i], new_h);
    assert forall|a: int| 0 <= a < w.len() implies !p(#[trigger] w[a]) by {
        if a < i {
            assert(w[a] == v[a]);
        } else {
            assert(w[a] == v[a + 1]);
        }
    }
    lemma_first_index(w, p, w.len() as int);
    let q = has_hash(new_h);
    let g = first_index(w, q);
    lemma_first_index_bounds(w, q);
    if g >= 0 {
        lemma_first_index_update(w, p, g, k);
    } else {
        lemma_first_index_push(w, p, k);
    }
    lemma_stored_key_found(w, k, now);
}

/// Storing a key keeps one record per hash.
pub proof fn lemma_put_key_keeps_unique(v: Seq<KeyView>, k: KeyView)
    ensures
        hashes_unique(v) ==> hashes_unique(put_key(v, k)),
{
    let p = has_hash(k.key_hash);
    let f = first_index(v, p);
    lemma_first_index_bounds(v, p);
    let u = put_key(v, k);
    if hashes_unique(v) {
        assert forall|a: int, b: int|
            0 <= a < u.len() && 0 <= b < u.len() && a != b implies (#[trigger] u[a]).key_hash != (
            #[trigger] u[b]).key_hash by {
            if f >= 0 {
                if a == f {
                    assert(v[b].key_hash != v[f].key_hash);
                } else if b == f {
                    assert(v[a].key_hash != v[f].key_hash);
                } else {
                    assert(u[a] == v[a] && u[b] == v[b]);
                }
            } else {
                if a == v.len() {
                    assert(!p(v[b]));
                } else if b == v.len() {
                    assert(!p(v[a]));
                } else {
                    assert(u[a] == v[a] && u[b] == v[b]);
                }
            }
        }
    }
}

/// Revoking keeps one record per hash.
pub proof fn lemma_revoke_keeps_unique(v: Seq<KeyView>, h: Seq<char>, at: u64)
    ensures
        hashes_unique(v) ==> hashes_unique(revoke_hash(v, h, at)),
{
    let u = revoke_hash(v, h, at);
    lemma_first_index_bounds(v, has_hash(h));
    if hashes_unique(v) {
        assert forall|a: int, b: int|
            0 <= a < u.len() && 0 <= b < u.len() && a != b implies (#[trigger] u[a]).key_hash != (
            #[trigger] u[b]).key_hash by {
            assert(u[a].key_hash == v[a].key_hash);
            assert(u[b].key_hash == v[b].key_hash);
        }
    }
}

/// Dropping records keeps one record per hash.
pub proof fn lemma_keep_keeps_unique(v: Seq<KeyView>, p: spec_fn(KeyView) -> bool)
    ensures
        hashes_unique(v) ==> hashes_unique(keep(v, p)),
    decreases v.len(),
{
    if v.len() > 0 && hashes_unique(v) {
        let t = v.drop_last();
        assert(hashes_unique(t)) by {
            assert forall|a: int, b: int|
                0 <= a < t.len() && 0 <= b < t.len() && a != b implies (#[trigger] t[a]).key_hash
                != (#[trigger] t[b]).key_hash by {
                assert(t[a] == v[a] && t[b] == v[b]);
            }
        }
        lemma_keep_keeps_unique(t, p);
        if p(v.last()) {
            let kt = keep(t, p);
            let u = keep(v, p);
            assert(u == kt.push(v.last()));
            assert forall|a: int, b: int|
                0 <= a < u.len() && 0 <= b < u.len() && a != b implies (#[trigger] u[a]).key_hash
                != (#[trigger] u[b]).key_hash by {
                if a == kt.len() {
                    lemma_keep_subset(t, p, b);
                    let j = choose|j: int| 0 <= j < t.len() && t[j] == kt[b] && p(t[j]);
                    assert(v[j] == t[j]);
                } else if b == kt.len() {
                    lemma_keep_subset(t, p, a);
                    let j = choose|j: int| 0 <= j < t.len() && t[j] == kt[a] && p(t[j]);
                    assert(v[j] == t[j]);
                } else {
                    assert(u[a] == kt[a] && u[b] == kt[b]);
                }
            }
        }
    }
}

/// Rotation keeps one record per hash.
pub proof fn lemma_rehash_keeps_unique(v: Seq<KeyView>, old_h: Seq<char>, new_h: Seq<char>)
    ensures
        hashes_unique(v) ==> hashes_unique(rehash_keys(v, old_h, new_h)),
{
    let i = first_index(v, has_hash(old_h));
    lemma_first_index_bounds(v, has_hash(old_h));
    if i >= 0 && hashes_unique(v) {
        let w = v.remove(i);
        assert forall|a: int, b: int|
            0 <= a < w.len() && 0 <= b < w.len() && a != b implies (#[trigger] w[a]).key_hash != (
            #[trigger] w[b]).key_hash by {
            let a2 = if a < i {
                a
            } else {
                a + 1
            };
            let b2 = if b < i {
                b
            } else {
                b + 1
            };
            assert(w[a] == v[a2] && w[b] == v[b2]);
        }
        lemma_put_key_keeps_unique(w, rehashed(v[i], new_h));
    }
}

} // verus!

verus! {

// ---- Read of a write in the other caches --------------------------------------

/// Storing `x` over the first match of `p` (or appending it) makes `x` the
/// first match.
pub proof fn lemma_put_at_found<A>(v: Seq<A>, p: spec_fn(A) -> bool, x: A)
    requires
        p(x),
    ensures
        ({
            let u = put_at(v, first_index(v, p), x);
            first_index(u, p) >= 0 && u[first_index(u, p)] == x
        }),
{
    let f = first_index(v, p);
    lemma_first_index_bounds(v, p);
    if f >= 0 {
        lemma_first_index_update(v, p, f, x);
    } else {
        lemma_first_index_push(v, p, x);
    }
}

/// Law (read of a write): after a tenant is stored, looking up its id gives
/// that tenant.
pub proof fn lemma_stored_tenant_found(v: Seq<TenantView>, t: TenantView)
    ensures
        ({
            let u = put_at(v, first_index(v, tenant_has_id(t.id)), t);
            first_index(u, tenant_has_id(t.id)) >= 0 && u[first_index(u, tenant_has_id(t.id))] == t
        }),
{
    lemma_put_at_found(v, tenant_has_id(t.id), t);
}

/// Law (read of a write): after a tenant is patched, looking up its id gives
/// the patched tenant.
pub proof fn lemma_patched_tenant_found(v: Seq<TenantView>, id: Seq<char>, patch: TenantPatch)
    requires
        first_index(v, tenant_has_id(id)) >= 0,
    ensures
        ({
            let i = first_index(v, tenant_has_id(id));
            let u = v.update(i, apply_patch(v[i], patch));
            first_index(u, tenant_has_id(id)) == i && u[i] == apply_patch(v[i], patch)
        }),
{
    let i = first_index(v, tenant_has_id(id));
    lemma_first_index_bounds(v, tenant_has_id(id));
    lemma_first_index_update(v, tenant_has_id(id), i, apply_patch(v[i], patch));
}

/// Law (read of a write): a registered origin is registered, and owned by
/// the tenant that registered it.
pub proof fn lemma_registered_origin_found(s: Seq<OriginView>, o: OriginView)
    ensures
        ({
            let u = put_at(s, first_index(s, origin_of(o.tenant_id, o.origin)), o);
            registered(u, o.origin) && owns(u, o.tenant_id, o.origin)
        }),
{
    let p = origin_of(o.tenant_id, o.origin);
    lemma_put_at_found(s, p, o);
    let u = put_at(s, first_index(s, p), o);
    let i = first_index(u, p);
    lemma_first_index_bounds(u, p);
    assert(u[i].origin == o.origin && u[i].tenant_id == o.tenant_id);
}

/// Law (read of a write): after a dictionary is registered, looking up its
/// code gives it.
pub proof fn lemma_registered_dictionary_found(v: Seq<DictionaryView>, d: DictionaryView)
    ensures
        ({
            let u = put_at(v, first_index(v, has_code(d.code)), d);
            first_index(u, has_code(d.code)) >= 0 && u[first_index(u, has_code(d.code))] == d
        }),
{
    lemma_put_at_found(v, has_code(d.code), d);
}

} // verus!

verus! {

// ---- Origin registrations by id -------------------------------------------------

/// Storing a registration over its tenant and origin keeps one record per
/// pair.
proof fn lemma_register_keeps_pairs_unique(v: Seq<OriginView>, o: OriginView)
    ensures
        pairs_unique(v) ==> pairs_unique(put_at(v, first_index(v, origin_of(o.tenant_id, o.origin)), o)),
{
    let p = origin_of(o.tenant_id, o.origin);
    let f = first_index(v, p);
    lemma_first_index_bounds(v, p);
    let u = put_at(v, f, o);
    if pairs_unique(v) {
        assert forall|a: int, b: int|
            0 <= a < u.len() && 0 <= b < u.len() && a != b implies !((#[trigger] u[a]).tenant_id
            == (#[trigger] u[b]).tenant_id && u[a].origin == u[b].origin) by {
            if f >= 0 {
                if a == f {
                    assert(u[b] == v[b]);
                } else if b == f {
                    assert(u[a] == v[a]);
                } else {
                    assert(u[a] == v[a] && u[b] == v[b]);
                }
            } else {
                if a == v.len() {
                    assert(!p(v[b]));
                } else if b == v.len() {
                    assert(!p(v[a]));
                } else {
                    assert(u[a] == v[a] && u[b] == v[b]);
                }
            }
        }
    }
}

/// Dropping registrations keeps one record per pair.
proof fn lemma_keep_keeps_pairs_unique(v: Seq<OriginView>, p: spec_fn(OriginView) -> bool)
    ensures
        pairs_unique(v) ==> pairs_unique(keep(v, p)),
    decreases v.len(),
{
    if v.len() > 0 && pairs_unique(v) {
        let t = v.drop_last();
        assert(pairs_unique(t)) by {
            assert forall|a: int, b: int|
                0 <= a < t.len() && 0 <= b < t.len() && a != b implies !((#[trigger] t[a]).tenant_id
                == (#[trigger] t[b]).tenant_id && t[a].origin == t[b].origin) by {
                assert(t[a] == v[a] && t[b] == v[b]);
            }
        }
        lemma_keep_keeps_pairs_unique(t, p);
        if p(v.last()) {
            let kt = keep(t, p);
            let u = keep(v, p);
            assert(u == kt.push(v.last()));
            assert forall|a: int, b: int|
                0 <= a < u.len() && 0 <= b < u.len() && a != b implies !((#[trigger] u[a]).tenant_id
                == (#[trigger] u[b]).tenant_id && u[a].origin == u[b].origin) by {
                if a == kt.len() {
                    lemma_keep_subset(t, p, b);
                    let j = choose|j: int| 0 <= j < t.len() && t[j] == kt[b] && p(t[j]);
                    assert(v[j] == t[j]);
                } else if b == kt.len() {
                    lemma_keep_subset(t, p, a);
                    let j = choose|j: int| 0 <= j < t.len() && t[j] == kt[a] && p(t[j]);
                    assert(v[j] == t[j]);
                } else {
                    assert(u[a] == kt[a] && u[b] == kt[b]);
                }
            }
        }
    }
}

/// Keeping every element but one that fails the test removes just that one.
proof fn lemma_keep_all_but<A>(s: Seq<A>, p: spec_fn(A) -> bool, i: int)
    requires
        0 <= i < s.len(),
        !p(s[i]),
        forall|j: int| 0 <= j < s.len() && j != i ==> p(#[trigger] s[j]),
    ensures
        keep(s, p) == s.remove(i),
    decreases s.len(),
{
    let t = s.drop_last();
    if i == s.len() - 1 {
        lemma_keep_every(t, p);
        assert(s.remove(i) =~= t);
    } else {
        assert forall|j: int| 0 <= j < t.len() && j != i implies p(#[trigger] t[j]) by {
            assert(t[j] == s[j]);
        }
        lemma_keep_all_but(t, p, i);
        assert(p(s[s.len() - 1]));
        assert(s.remove(i) =~= t.remove(i).push(s.last()));
    }
}

/// Keeping elements that all pass the test keeps them all.
proof fn lemma_keep_every<A>(s: Seq<A>, p: spec_fn(A) -> bool)
    requires
        forall|j: int| 0 <= j < s.len() ==> p(#[trigger] s[j]),
    ensures
        keep(s, p) == s,
    decreases s.len(),
{
    if s.len() > 0 {
        let t = s.drop_last();
        assert forall|j: int| 0 <= j < t.len() implies p(#[trigger] t[j]) by {
            assert(t[j] == s[j]);
        }
        lemma_keep_every(t, p);
        assert(p(s[s.len() - 1]));
        assert(t.push(s.last()) =~= s);
    }
}

/// Law: revoking tenant `t`'s registration `id` succeeds exactly when the
/// tenant has a registration with that id; it then removes that
/// registration and no other, so an origin stays registered exactly while
/// some remaining registration (another tenant's, say) holds it. Without
/// such a registration nothing changes. One record per tenant and origin is
/// what the cache keeps.
pub proof fn lemma_revoke_origin_by_id(s: Seq<OriginView>, t: Seq<char>, id: Seq<char>, o: Seq<char>)
    requires
        pairs_unique(s),
    ensures
        revoke_registration(s, t, id).0 <==> exists|i: int|
            0 <= i < s.len() && #[trigger] registration(t, id)(s[i]),
        !revoke_registration(s, t, id).0 ==> revoke_registration(s, t, id).1 == s,
        revoke_registration(s, t, id).0 ==> ({
            let i = first_index(s, registration(t, id));
            &&& revoke_registration(s, t, id).1 == s.remove(i)
            &&& registered(revoke_registration(s, t, id).1, o) <==> exists|j: int|
                0 <= j < s.len() && j != i && (#[trigger] s[j]).origin == o
        }),
{
    let p = registration(t, id);
    let i = first_index(s, p);
    lemma_first_index_bounds(s, p);
    if exists|k: int| 0 <= k < s.len() && #[trigger] registration(t, id)(s[k]) {
        let k = choose|k: int| 0 <= k < s.len() && #[trigger] registration(t, id)(s[k]);
        assert(p(s[k]));
    }
    if i >= 0 {
        let q = not_origin_of(t, s[i].origin);
        assert forall|j: int| 0 <= j < s.len() && j != i implies q(#[trigger] s[j]) by {
            if s[j].tenant_id == t && s[j].origin == s[i].origin {
                assert(s[i].tenant_id == s[j].tenant_id);
            }
        }
        lemma_keep_all_but(s, q, i);
        let r = s.remove(i);
        if registered(r, o) {
            let k = choose|k: int| 0 <= k < r.len() && (#[trigger] r[k]).origin == o;
            if k < i {
                assert(r[k] == s[k]);
            } else {
                assert(r[k] == s[k + 1]);
            }
        }
        if exists|j: int| 0 <= j < s.len() && j != i && (#[trigger] s[j]).origin == o {
            let j = choose|j: int| 0 <= j < s.len() && j != i && (#[trigger] s[j]).origin == o;
            if j < i {
                assert(r[j] == s[j]);
            } else {
                assert(r[j - 1] == s[j]);
            }
        }
    }
}

} // verus!
