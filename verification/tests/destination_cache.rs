use omega_drive::destinations::{fetch_outcome, DestinationCache};

#[test]
fn first_read_starts_a_fetch() {
    let mut c: DestinationCache<u32> = DestinationCache::new();
    assert!(c.begin_fetch("tok".into(), "key".into(), 1_000, false));
    assert!(c.is_fetching);
    // A second read while fetching starts nothing.
    assert!(!c.begin_fetch("tok".into(), "key".into(), 1_001, true));
}

#[test]
fn finished_fetch_is_fresh_for_thirty_seconds() {
    let mut c: DestinationCache<u32> = DestinationCache::new();
    assert!(c.begin_fetch("tok".into(), "key".into(), 0, false));
    let out = fetch_outcome(Some(Ok(vec![1, 2])), Some(Err("boom".to_string())));
    c.finish_fetch(&"tok".to_string(), &"key".to_string(), out, 5_000);
    assert!(c.destinations_loaded());
    assert_eq!(c.discord_guilds, vec![1, 2]);
    assert_eq!(c.telegram_error.as_deref(), Some("boom"));
    assert!(!c.telegram_authorized);
    assert!(!c.begin_fetch("tok".into(), "key".into(), 35_000, false));
    assert!(c.begin_fetch("tok".into(), "key".into(), 35_001, false));
}

#[test]
fn forced_refresh_fetches_again() {
    let mut c: DestinationCache<u32> = DestinationCache::new();
    c.begin_fetch("tok".into(), "key".into(), 0, false);
    c.finish_fetch(&"tok".to_string(), &"key".to_string(), fetch_outcome(None, None), 10);
    assert!(c.begin_fetch("tok".into(), "key".into(), 20, true));
}

#[test]
fn changed_credentials_drop_stale_results() {
    let mut c: DestinationCache<u32> = DestinationCache::new();
    assert!(c.begin_fetch("tok".into(), "key".into(), 0, false));
    // Credentials change while fetching: the cache is cleared and rekeyed.
    assert!(!c.begin_fetch("tok2".into(), "key".into(), 10, false));
    c.finish_fetch(&"tok".to_string(), &"key".to_string(), fetch_outcome(Some(Ok(vec![9])), None), 20);
    assert!(c.discord_guilds.is_empty());
    assert!(!c.destinations_loaded());
    assert!(!c.is_fetching);
}

#[test]
fn telegram_invalidation_forgets_groups() {
    let mut c: DestinationCache<u32> = DestinationCache::new();
    c.begin_fetch("tok".into(), "key".into(), 0, false);
    c.finish_fetch(&"tok".to_string(), &"key".to_string(), fetch_outcome(Some(Ok(vec![1])), Some(Ok(vec![7]))), 1);
    assert!(c.telegram_authorized);
    c.invalidate_telegram();
    assert!(c.telegram_groups.is_empty());
    assert!(!c.telegram_authorized);
    assert!(!c.destinations_loaded());
    assert_eq!(c.discord_guilds, vec![1]);
}
