use rustspell_server::store::{
    decide_bootstrap_reset, dictionary_info_from_columns, generate_raw_key, hash_key,
    key_record_from_columns, new_id, new_key, new_tenant_record, origin_info_from_columns,
    tenant_info_from_columns, to_hex, BootstrapReset, DictionaryCache, KeyCache, OriginCache,
    Role, TenantCache, TenantPatch,
};

fn tenant_cache_with(id: &str, quota: Option<u64>) -> TenantCache {
    let mut tenants = TenantCache::new();
    tenants.insert(new_tenant_record(id.to_string(), "Acme".to_string(), None, quota, None, None, 1));
    tenants
}

#[test]
fn role_text_round_trips() {
    for role in [Role::Platform, Role::Admin, Role::Standard] {
        assert_eq!(Role::parse(role.as_str()), Some(role));
    }
    assert_eq!(Role::parse("root"), None);
    assert_eq!(Role::Admin.as_str(), "admin");
}

#[test]
fn hash_key_is_lowercase_hex_sha256() {
    assert_eq!(
        hash_key("abc"),
        "ba7816bf8f01cfea414140de5dae2223b00361a396177a9cb410ff61f20015ad"
    );
    assert_eq!(
        hash_key(""),
        "e3b0c44298fc1c149afbf4c8996fb92427ae41e4649b934ca495991b7852b855"
    );
    assert_eq!(to_hex(&vec![0u8, 15, 16, 255]), "000f10ff");
}

#[test]
fn generated_keys_and_ids_have_their_shapes() {
    let raw = generate_raw_key();
    assert_eq!(raw.len(), 68);
    assert!(raw.starts_with("rsk_"));
    assert!(raw[4..].chars().all(|c| c.is_ascii_hexdigit() && !c.is_ascii_uppercase()));
    assert_ne!(generate_raw_key(), raw);
    let id = new_id();
    assert_eq!(id.len(), 36);
    assert_eq!(id.matches('-').count(), 4);
}

#[test]
fn key_create_authenticate_revoke_round_trip() {
    let mut keys = KeyCache::new();
    let created = new_key(Some("t1".to_string()), "ci".to_string(), Role::Standard, None, 100);
    assert_eq!(created.record.key_hash, hash_key(&created.raw_key));
    let hash = created.record.key_hash.clone();
    let id = created.record.id.clone();
    keys.insert(created.record);

    let found = keys.find_active(&hash, 200).expect("active key authenticates");
    assert_eq!(found.id, id);
    assert_eq!(keys.list_keys("t1").len(), 1);
    assert!(keys.list_keys("t2").is_empty());

    assert!(keys.find_tenant_key("t2", &id).is_none(), "another tenant's key is not found");
    let h = keys.find_tenant_key("t1", &id).unwrap();
    keys.mark_revoked(&h, 300);
    assert!(keys.find_active(&hash, 301).is_none());
    // Revoking again keeps the first timestamp.
    keys.mark_revoked(&h, 999);
    assert_eq!(keys.list_keys("t1")[0].revoked_at, Some(300));
}

#[test]
fn authenticate_rejects_expired_key() {
    let mut keys = KeyCache::new();
    let created = new_key(Some("t1".to_string()), "temp".to_string(), Role::Standard, Some(500), 100);
    let hash = created.record.key_hash.clone();
    keys.insert(created.record);
    assert!(keys.find_active(&hash, 499).is_some());
    assert!(keys.find_active(&hash, 500).is_none());
}

#[test]
fn rotate_key_invalidates_old_value_and_keeps_identity() {
    let mut keys = KeyCache::new();
    let created = new_key(Some("t1".to_string()), "ci".to_string(), Role::Admin, None, 100);
    let old_hash = created.record.key_hash.clone();
    let id = created.record.id.clone();
    keys.insert(created.record);
    keys.touch_last_used(&id, 150);
    let new_hash = hash_key("rsk_new");
    let rotated = keys.rehash(&old_hash, new_hash.clone()).unwrap();
    assert_eq!(rotated.id, id);
    assert_eq!(rotated.last_used_at, None);
    assert!(keys.find_active(&old_hash, 200).is_none());
    assert_eq!(keys.find_active(&new_hash, 200).unwrap().id, id);
    assert!(keys.rehash(&old_hash, hash_key("again")).is_none());
}

#[test]
fn adopting_a_record_drops_stale_hashes_of_its_id() {
    let mut keys = KeyCache::new();
    let created = new_key(None, "bootstrap".to_string(), Role::Platform, None, 1);
    let stale = created.record.key_hash.clone();
    let mut fresh = created.record.duplicate();
    keys.insert(created.record);
    fresh.key_hash = hash_key("rsk_rotated_elsewhere");
    let fresh_hash = fresh.key_hash.clone();
    keys.adopt(fresh);
    assert!(keys.find_active(&stale, 2).is_none());
    assert!(keys.find_active(&fresh_hash, 2).is_some());
}

#[test]
fn bootstrap_reset_creates_rotates_or_refuses() {
    let mut keys = KeyCache::new();
    assert!(!keys.has_active_platform_key(10));
    assert!(matches!(decide_bootstrap_reset(&keys.bootstrap_keys(10)), Ok(BootstrapReset::Create)));

    let first = new_key(None, "bootstrap".to_string(), Role::Platform, None, 1);
    let first_id = first.record.id.clone();
    keys.insert(first.record);
    assert!(keys.has_active_platform_key(10));
    match decide_bootstrap_reset(&keys.bootstrap_keys(10)) {
        Ok(BootstrapReset::Rotate { id, .. }) => assert_eq!(id, first_id),
        _ => panic!("one bootstrap key rotates"),
    }

    keys.insert(new_key(None, "bootstrap".to_string(), Role::Platform, None, 2).record);
    // A platform key with another label does not count.
    keys.insert(new_key(None, "billing".to_string(), Role::Platform, None, 3).record);
    let err = match decide_bootstrap_reset(&keys.bootstrap_keys(10)) {
        Err(e) => e,
        Ok(_) => panic!("two bootstrap keys are ambiguous"),
    };
    assert_eq!(err, "found 2 active platform keys labeled 'bootstrap'; reset is ambiguous");
}

#[test]
fn stored_columns_decode_their_sentinels() {
    let k = key_record_from_columns(
        "id1".to_string(),
        String::new(),
        "bootstrap".to_string(),
        "platform",
        "hash".to_string(),
        5,
        -1,
        7,
        -1,
    )
    .unwrap();
    assert_eq!(k.tenant_id, None);
    assert_eq!(k.role, Role::Platform);
    assert_eq!(k.expires_at, None);
    assert_eq!(k.last_used_at, Some(7));
    assert_eq!(k.revoked_at, None);
    let err = match key_record_from_columns(
        "id1".to_string(),
        "t1".to_string(),
        "x".to_string(),
        "owner",
        "hash".to_string(),
        5,
        -1,
        -1,
        -1,
    ) {
        Err(e) => e,
        Ok(_) => panic!("unknown roles are refused"),
    };
    assert_eq!(err, "invalid role in database: owner");

    let t = tenant_info_from_columns(
        "t1".to_string(),
        "Acme".to_string(),
        "de_DE".to_string(),
        0,
        3,
        -1,
        86_400,
        -1,
        9,
    );
    assert_eq!(t.period_start, None);
    assert_eq!(t.period_end, Some(86_400));
    assert_eq!(t.suspended_at, None);
    assert_eq!(t.request_count, 3);
    let o = origin_info_from_columns("o1".to_string(), "t1".to_string(), "https://a".to_string(), 4);
    assert_eq!(o.created_at, 4);
    let d = dictionary_info_from_columns("fr".to_string(), "https://dict/fr".to_string(), 8);
    assert_eq!(d.code, "fr");
}

#[test]
fn create_tenant_defaults_quota_to_unlimited() {
    let t = new_tenant_record("t1".to_string(), "Acme".to_string(), None, None, None, None, 1);
    assert_eq!(t.quota_limit, 0);
    assert_eq!(t.language, "en_US");
    assert_eq!(t.request_count, 0);
    assert!(t.suspended_at.is_none());
}

#[test]
fn quota_zero_is_unlimited() {
    let mut tenants = tenant_cache_with("t1", Some(0));
    for _ in 0..50 {
        assert!(tenants.try_consume_quota("t1").is_some());
    }
    assert_eq!(tenants.get_tenant("t1").unwrap().request_count, 50);
}

#[test]
fn quota_blocks_at_limit() {
    let mut tenants = tenant_cache_with("t1", Some(2));
    assert_eq!(tenants.try_consume_quota("t1"), Some(1));
    assert_eq!(tenants.try_consume_quota("t1"), Some(2));
    assert_eq!(tenants.try_consume_quota("t1"), None);
    assert_eq!(tenants.get_tenant("t1").unwrap().request_count, 2);
}

#[test]
fn quota_unblocks_after_limit_raised() {
    let mut tenants = tenant_cache_with("t1", Some(1));
    assert!(tenants.try_consume_quota("t1").is_some());
    assert!(tenants.try_consume_quota("t1").is_none());
    let patch = TenantPatch { name: None, language: None, quota_limit: Some(5), request_count: None, period_start: None, period_end: None };
    let updated = tenants.update_tenant("t1", &patch).unwrap();
    assert_eq!(updated.quota_limit, 5);
    assert!(tenants.try_consume_quota("t1").is_some());
}

#[test]
fn quota_unblocks_after_request_count_reset() {
    let mut tenants = tenant_cache_with("t1", Some(1));
    assert!(tenants.try_consume_quota("t1").is_some());
    assert!(tenants.try_consume_quota("t1").is_none());
    let patch = TenantPatch { name: None, language: None, quota_limit: None, request_count: Some(0), period_start: None, period_end: None };
    tenants.update_tenant("t1", &patch).unwrap();
    assert!(tenants.try_consume_quota("t1").is_some());
}

#[test]
fn tenant_updates_touch_only_given_fields() {
    let mut tenants = tenant_cache_with("t1", None);
    let patch = TenantPatch {
        name: Some("Renamed".to_string()),
        language: None,
        quota_limit: None,
        request_count: None,
        period_start: Some(Some(10)),
        period_end: Some(None),
    };
    let t = tenants.update_tenant("t1", &patch).unwrap();
    assert_eq!(t.name, "Renamed");
    assert_eq!(t.language, "en_US");
    assert_eq!(t.period_start, Some(10));
    assert_eq!(t.period_end, None);
    assert!(tenants.update_tenant("missing", &patch).is_none());
    assert!(!tenants.set_suspended("missing", Some(1)));
    assert_eq!(tenants.list_tenants().len(), 1);
}

#[test]
fn origin_register_and_revoke() {
    let mut origins = OriginCache::new();
    let mk = |t: &str, o: &str| rustspell_server::store::OriginInfo {
        id: format!("{t}{o}"),
        tenant_id: t.to_string(),
        origin: o.to_string(),
        created_at: 0,
    };
    origins.register_origin(mk("t1", "https://shared.example"));
    origins.register_origin(mk("t2", "https://shared.example"));
    origins.register_origin(mk("t1", "https://own.example"));
    assert_eq!(origins.list_origins("t1").len(), 2);
    assert!(origins.tenant_owns_origin("t2", "https://shared.example"));

    origins.revoke_origin("t1", "https://shared.example");
    // Still registered: t2 owns it too.
    assert!(origins.is_registered_origin("https://shared.example"));
    assert!(!origins.tenant_owns_origin("t1", "https://shared.example"));
    origins.revoke_origin("t2", "https://shared.example");
    assert!(!origins.is_registered_origin("https://shared.example"));
    assert!(origins.is_registered_origin("https://own.example"));
}

#[test]
fn dictionary_cache_registers_and_lists() {
    let mut dictionaries = DictionaryCache::new();
    dictionaries.register_dictionary(dictionary_info_from_columns("fr".to_string(), "https://a/fr".to_string(), 1));
    dictionaries.register_dictionary(dictionary_info_from_columns("de".to_string(), "https://a/de".to_string(), 2));
    dictionaries.register_dictionary(dictionary_info_from_columns("fr".to_string(), "https://b/fr".to_string(), 1));
    let all = dictionaries.list_dictionaries();
    assert_eq!(all.len(), 2);
    assert_eq!(dictionaries.get_dictionary("fr").unwrap().source_url, "https://b/fr");
    assert!(dictionaries.get_dictionary("es").is_none());
}

#[test]
fn revoking_one_key_leaves_the_others_working() {
    let mut keys = KeyCache::new();
    let a = new_key(Some("t1".to_string()), "a".to_string(), Role::Standard, None, 100);
    let b = new_key(Some("t1".to_string()), "b".to_string(), Role::Admin, None, 100);
    let (ha, hb) = (a.record.key_hash.clone(), b.record.key_hash.clone());
    let idb = b.record.id.clone();
    keys.insert(a.record);
    keys.insert(b.record);
    keys.mark_revoked(&ha, 200);
    assert!(keys.find_active(&ha, 201).is_none());
    assert_eq!(keys.find_active(&hb, 201).unwrap().id, idb);
}

#[test]
fn suspension_shuts_out_only_that_tenant() {
    let mut tenants = tenant_cache_with("t1", None);
    tenants.insert(new_tenant_record("t2".to_string(), "Other".to_string(), None, None, None, None, 1));
    assert!(tenants.set_suspended("t1", Some(5)));
    assert_eq!(tenants.get_tenant("t1").unwrap().suspended_at, Some(5));
    assert_eq!(tenants.get_tenant("t2").unwrap().suspended_at, None);
    assert!(tenants.set_suspended("t1", None));
    assert_eq!(tenants.get_tenant("t1").unwrap().suspended_at, None);
    assert!(!tenants.set_suspended("nobody", Some(5)));
}

#[test]
fn origin_revoked_by_id_only_for_its_tenant() {
    let mut origins = OriginCache::new();
    let mk = |id: &str, t: &str, o: &str| rustspell_server::store::OriginInfo {
        id: id.to_string(),
        tenant_id: t.to_string(),
        origin: o.to_string(),
        created_at: 0,
    };
    origins.register_origin(mk("a", "t1", "https://shared.example"));
    origins.register_origin(mk("b", "t2", "https://shared.example"));
    // Another tenant's id is not found, and nothing changes.
    assert!(!origins.revoke_origin_id("t1", "b"));
    assert_eq!(origins.list_origins("t2").len(), 1);
    assert!(origins.revoke_origin_id("t1", "a"));
    assert!(origins.list_origins("t1").is_empty());
    assert!(origins.is_registered_origin("https://shared.example"));
    assert!(origins.revoke_origin_id("t2", "b"));
    assert!(!origins.is_registered_origin("https://shared.example"));
    assert!(!origins.revoke_origin_id("t2", "b"));
}

#[test]
fn new_keys_carry_a_uuid_id_and_a_hex_raw_key() {
    let created = new_key(Some("t1".to_string()), "ci".to_string(), Role::Admin, None, 5);
    let id = &created.record.id;
    assert_eq!(id.len(), 36);
    for (i, c) in id.chars().enumerate() {
        if [8, 13, 18, 23].contains(&i) {
            assert_eq!(c, '-');
        } else {
            assert!(c.is_ascii_hexdigit() && !c.is_ascii_uppercase());
        }
    }
    assert!(created.raw_key.starts_with("rsk_"));
    assert!(created.raw_key[4..].chars().all(|c| c.is_ascii_hexdigit() && !c.is_ascii_uppercase()));
}
