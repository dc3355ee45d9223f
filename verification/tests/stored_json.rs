use omega_drive::json::{
    audio_ids_json, imported_audio_ids, pending_audio_plan, restore_disk_cache, selected_audio_update,
    snapshot_json, stored_audio_ids,
};
use omega_drive::url_cache::CachedLink;

#[test]
fn audio_id_lists() {
    assert_eq!(stored_audio_ids(Some("[3, -4,5]")), vec![3, -4, 5]);
    assert_eq!(stored_audio_ids(Some("not json")), Vec::<i64>::new());
    assert_eq!(stored_audio_ids(None), Vec::<i64>::new());
    assert_eq!(audio_ids_json(&vec![1, -2, 30]), "[1,-2,30]");
    assert_eq!(audio_ids_json(&vec![]), "[]");
}

#[test]
fn selected_track_updates() {
    assert_eq!(selected_audio_update(Some("[1,2]"), 3), ("[1,2,3]".to_string(), Some(3)));
    assert_eq!(selected_audio_update(Some("[1,2]"), 2), ("[1,2]".to_string(), Some(2)));
    assert_eq!(selected_audio_update(None, 7), ("[7]".to_string(), Some(7)));
    assert_eq!(selected_audio_update(Some("[1, 2]"), -1), ("[1, 2]".to_string(), None));
    assert_eq!(selected_audio_update(None, 0), ("[]".to_string(), None));
}

#[test]
fn pending_tracks_and_imports() {
    assert_eq!(pending_audio_plan(Some("[5,6]"), Some(6)), vec![(5, false), (6, true)]);
    assert_eq!(pending_audio_plan(Some("{}"), Some(6)), vec![(6, true)]);
    assert_eq!(imported_audio_ids(Some("[9]"), 9), vec![9, 9]);
    assert_eq!(imported_audio_ids(None, 4), vec![4]);
}

#[test]
fn link_snapshots_round_trip() {
    let cache = vec![
        CachedLink { key: "5:1".to_string(), url: "https://cdn/a\"b".to_string(), expiry: 2_000 },
        CachedLink { key: "5:2".to_string(), url: "https://cdn/c".to_string(), expiry: 50 },
        CachedLink { key: "6:1".to_string(), url: "https://cdn/d".to_string(), expiry: 2_000 },
    ];
    let json = snapshot_json(&cache, 5, 100).unwrap();
    assert_eq!(json, "[[\"5:1\",\"https://cdn/a\\\"b\",\"2000\"]]");
    assert_eq!(snapshot_json(&cache, 7, 100), None);
    let back = restore_disk_cache(&json, 100);
    assert_eq!(back.len(), 1);
    assert_eq!((back[0].key.as_str(), back[0].url.as_str(), back[0].expiry), ("5:1", "https://cdn/a\"b", 2_000));
    assert!(restore_disk_cache(&json, 3_000).is_empty());
    assert!(restore_disk_cache("garbage", 0).is_empty());
}

#[test]
fn snapshot_json_escapes_like_serde_json() {
    let cache = vec![CachedLink { key: "9:1".to_string(), url: "a\"b\\c\nd\u{1}e/é".to_string(), expiry: 1000 }];
    let json = snapshot_json(&cache, 9, 10).unwrap();
    assert_eq!(json, "[[\"9:1\",\"a\\\"b\\\\c\\nd\\u0001e/é\",\"1000\"]]");
    let back = restore_disk_cache(&json, 10);
    assert_eq!(back.len(), 1);
    assert_eq!(back[0].url, "a\"b\\c\nd\u{1}e/é");
}

#[test]
fn audio_ids_are_written_exactly() {
    assert_eq!(audio_ids_json(&vec![]), "[]");
    assert_eq!(audio_ids_json(&vec![i64::MIN, 0, 7]), "[-9223372036854775808,0,7]");
}

#[test]
fn unreadable_or_unrepresentable_expiries_are_dropped() {
    let text = "[[\"1:1\",\"a\",\"soon\"],[\"1:2\",\"b\",\"9223372036854775807\"],[\"1:3\",\"c\",\"500\"]]";
    let back = restore_disk_cache(text, -10);
    assert_eq!(back.len(), 1);
    assert_eq!(back[0].key, "1:3");
    assert_eq!(back[0].expiry, 500);
}
