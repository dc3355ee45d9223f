use omega_drive::onboarding::{
    check_tenant_reachable, choose_scope_active, credentials_changed, new_tenant_request, normalize_env_value,
    normalize_optional_segment, parse_telegram_credentials, partition_tenants, plan_onboarding, same_tenant,
    scope_label, telegram_credentials_input, telegram_reachable_cache_key, tenant_is_valid, trimmed_secret,
    validate_scope, ActiveTenantsState, OnboardingError, ReachableSummary, TelegramCredentials, TenantDescriptor,
    TenantSummary,
};

fn tenant(scope: &str, discord: Option<&str>, telegram: Option<&str>) -> TenantDescriptor {
    TenantDescriptor {
        scope: scope.to_string(),
        discord_guild_id: discord.map(|s| s.to_string()),
        telegram_group_id: telegram.map(|s| s.to_string()),
        db_file_name: format!("{}.db", scope),
    }
}

fn reach(discord: &[&str], telegram: &[&str]) -> ReachableSummary {
    ReachableSummary {
        discord_token_present: true,
        telegram_authorized: true,
        destinations_loaded: true,
        discord_error: false,
        telegram_error: false,
        discord_ids: discord.iter().map(|s| s.to_string()).collect(),
        telegram_ids: telegram.iter().map(|s| s.to_string()).collect(),
    }
}

#[test]
fn scope_label_folds_case() {
    assert_eq!(scope_label("SHARED"), "shared");
    assert_eq!(scope_label("Shared"), "shared");
    assert_eq!(scope_label("shared "), "my");
    assert_eq!(scope_label("anything"), "my");
    assert_eq!(validate_scope("sHaReD").unwrap(), "shared");
    assert_eq!(validate_scope("").unwrap(), "my");
}

#[test]
fn tenant_validity_checks_each_destination() {
    let ids_d = vec!["g1".to_string()];
    let ids_t = vec!["t1".to_string()];
    let t = tenant("my", Some("g1"), Some("t1"));
    assert!(tenant_is_valid(&t, &ids_d, &ids_t, true, true, true));
    let t2 = tenant("my", Some("g2"), Some("t1"));
    assert!(!tenant_is_valid(&t2, &ids_d, &ids_t, true, true, true));
    // Not loaded yet: any present id passes.
    assert!(tenant_is_valid(&t2, &ids_d, &ids_t, true, true, false));
    // A checked destination must be present.
    let t3 = tenant("my", None, Some("t1"));
    assert!(!tenant_is_valid(&t3, &ids_d, &ids_t, true, true, true));
    assert!(tenant_is_valid(&t3, &ids_d, &ids_t, false, true, true));
}

#[test]
fn remembered_tenant_stays_active_while_usable() {
    let valid = vec![tenant("my", Some("a"), None), tenant("my", Some("b"), None)];
    let chosen = choose_scope_active(Some(tenant("my", Some("b"), None)), &valid).unwrap();
    assert_eq!(chosen.discord_guild_id.as_deref(), Some("b"));
    let fallback = choose_scope_active(Some(tenant("my", Some("z"), None)), &valid).unwrap();
    assert_eq!(fallback.discord_guild_id.as_deref(), Some("a"));
    assert!(choose_scope_active(None, &[]).is_none());
}

#[test]
fn partition_splits_by_scope_and_usability() {
    let discovered = vec![
        tenant("my", Some("g1"), Some("t1")),
        tenant("shared", Some("g2"), Some("t1")),
        tenant("shared", Some("g1"), Some("t1")),
        tenant("Shared", Some("g1"), Some("t1")),
    ];
    let r = reach(&["g1"], &["t1"]);
    let (my_valid, my_invalid, shared_valid, shared_invalid) = partition_tenants(&discovered, &r);
    // "Shared" is not exactly "shared", so it counts as my.
    assert_eq!(my_valid.len(), 2);
    assert_eq!(my_invalid.len(), 0);
    assert_eq!(shared_valid.len(), 1);
    assert_eq!(shared_invalid.len(), 1);
    assert_eq!(shared_invalid[0].discord_guild_id.as_deref(), Some("g2"));
}

#[test]
fn plan_rebinds_to_active_tenant_of_current_scope() {
    let discovered = vec![tenant("my", Some("g1"), Some("t1")), tenant("shared", Some("g1"), Some("t1"))];
    let r = reach(&["g1"], &["t1"]);
    let current = tenant("my", Some("old"), None);
    let plan = plan_onboarding(&discovered, &r, None, None, &current, true);
    let target = plan.rebind_to.unwrap();
    assert!(same_tenant(&target, &discovered[0]));
    assert!(!plan.requires_onboarding);
    assert!(!plan.tenants.my.needs_selection);
    let no_rebind = plan_onboarding(&discovered, &r, None, None, &current, false);
    assert!(no_rebind.rebind_to.is_none());
}

#[test]
fn plan_requires_onboarding_without_usable_tenant() {
    let discovered = vec![tenant("my", Some("gone"), Some("t1"))];
    let r = reach(&["g1"], &["t1"]);
    let current = tenant("my", None, None);
    let plan = plan_onboarding(&discovered, &r, None, None, &current, true);
    assert!(plan.requires_onboarding);
    assert!(plan.tenants.my.needs_selection);
    assert_eq!(plan.tenants.my.invalid_tenants.len(), 1);
    assert!(plan.rebind_to.is_none());
}

#[test]
fn plan_requires_onboarding_on_provider_error() {
    let discovered = vec![tenant("my", Some("g1"), Some("t1"))];
    let mut r = reach(&["g1"], &["t1"]);
    r.telegram_error = true;
    let current = tenant("my", Some("g1"), Some("t1"));
    let plan = plan_onboarding(&discovered, &r, None, None, &current, true);
    assert!(plan.requires_onboarding);
    assert!(plan.rebind_to.is_none());
}

#[test]
fn env_values_and_segments_are_trimmed() {
    assert_eq!(normalize_env_value("  tok en \n"), "tok en");
    assert_eq!(normalize_optional_segment(Some("  123 ".to_string())), Some("123".to_string()));
    assert_eq!(normalize_optional_segment(Some(" 0 ".to_string())), None);
    assert_eq!(normalize_optional_segment(Some("   ".to_string())), None);
    assert_eq!(normalize_optional_segment(None), None);
}

#[test]
fn new_tenant_needs_a_destination() {
    let err = new_tenant_request("my", Some("0".to_string()), Some(" ".to_string()));
    assert!(matches!(err, Err(OnboardingError::MissingDestinations)));
    let ok = new_tenant_request("SHARED", Some(" 42 ".to_string()), None).ok().unwrap();
    assert_eq!(ok.scope, "shared");
    assert_eq!(ok.discord_guild_id.as_deref(), Some("42"));
    assert_eq!(ok.telegram_group_id, None);
}

#[test]
fn new_tenant_destinations_must_be_reachable() {
    let req = new_tenant_request("my", Some("g1".to_string()), Some("t9".to_string())).ok().unwrap();
    let d = vec!["g1".to_string()];
    let t = vec!["t1".to_string()];
    assert_eq!(check_tenant_reachable(&req, &d, &t), Err(OnboardingError::TelegramGroupUnreachable));
    let req2 = new_tenant_request("my", Some("g5".to_string()), Some("t9".to_string())).ok().unwrap();
    assert_eq!(check_tenant_reachable(&req2, &d, &t), Err(OnboardingError::DiscordGuildUnreachable));
    let t2 = vec!["t9".to_string()];
    assert_eq!(check_tenant_reachable(&req, &d, &t2), Ok(()));
}

#[test]
fn stored_credentials_parse_like_env() {
    let c = parse_telegram_credentials(" +84 123 ", "12345", " hash ").unwrap();
    assert_eq!(c.phone, "+84 123");
    assert_eq!(c.api_id, 12345);
    assert_eq!(c.api_hash, "hash");
    assert!(parse_telegram_credentials("p", " 12", "h").is_none());
    assert!(parse_telegram_credentials("p", "-5", "h").is_none());
    assert!(parse_telegram_credentials("p", "99999999999", "h").is_none());
    assert!(parse_telegram_credentials("", "5", "h").is_none());
    assert!(parse_telegram_credentials("p", "+7", "h").is_some());
}

#[test]
fn entered_credentials_are_checked() {
    assert!(matches!(telegram_credentials_input(" ", 5, "h"), Err(OnboardingError::MissingTelegramCredentials)));
    assert!(matches!(telegram_credentials_input("p", 0, "h"), Err(OnboardingError::MissingTelegramCredentials)));
    let c = telegram_credentials_input(" p ", 5, " h ").ok().unwrap();
    assert_eq!((c.phone.as_str(), c.api_id, c.api_hash.as_str()), ("p", 5, "h"));
}

#[test]
fn credential_change_detection() {
    let a = TelegramCredentials { phone: "p".into(), api_id: 1, api_hash: "h".into() };
    let b = TelegramCredentials { phone: "p".into(), api_id: 1, api_hash: "h".into() };
    let c = TelegramCredentials { phone: "p".into(), api_id: 2, api_hash: "h".into() };
    assert!(!credentials_changed(&Some(a), &b));
    assert!(credentials_changed(&Some(b), &c));
    assert!(credentials_changed(&None, &c));
}

#[test]
fn telegram_cache_key_layout() {
    let c = TelegramCredentials { phone: " +1 ".into(), api_id: -42, api_hash: "h".into() };
    assert_eq!(telegram_reachable_cache_key("/data/tg.session", &c), "/data/tg.session|+1|-42");
}

#[test]
fn blank_secrets_are_refused() {
    assert_eq!(trimmed_secret("  ", OnboardingError::EmptyLoginCode), Err(OnboardingError::EmptyLoginCode));
    assert_eq!(trimmed_secret(" 1234 ", OnboardingError::EmptyLoginCode), Ok("1234".to_string()));
    assert_eq!(trimmed_secret("", OnboardingError::EmptyPassword), Err(OnboardingError::EmptyPassword));
}

#[test]
fn summary_carries_descriptor_and_name() {
    let s = TenantSummary::from_descriptor(tenant("shared", Some("42"), None), Some("Team".to_string()));
    assert_eq!(s.scope, "shared");
    assert_eq!(s.discord_guild_id.as_deref(), Some("42"));
    assert_eq!(s.telegram_group_id, None);
    assert_eq!(s.display_name.as_deref(), Some("Team"));
    assert_eq!(s.db_file_name, "shared.db");
    let state = ActiveTenantsState {
        my: None,
        shared: None,
        current: s,
    };
    assert!(state.my.is_none() && state.shared.is_none());
    assert_eq!(state.current.scope, "shared");
}
