use omega_drive::shell::{
    backup_priority, external_url_allowed, group_by_platform, is_stalled_upload, parse_video_bridge_args, purge_step, remove_all_str,
    plan_lookup, resolve_upload_plan, row_action_name, second_instance_action, startup_plan, watchdog_sweep, webview_silent,
    DeepLink, HeartbeatStatus, PlanLookup, PurgeEvent, PurgeStage, RowAction, VideoBridgeProcessArgs,
};
use omega_drive::system::{
    binary_status, binary_version_from_output, effective_log_level, enumerate_gpu_adapters, feature_log_file_name,
    feature_switches_from_config, gpu_names_from_output, split_words, telegram_env_configured, FeatureLogState,
    FrontendLevel, PowerGuard,
};
use omega_drive::url_cache::{
    anti_flap_filter, build_snapshot, check_cache, list_expired_parts, parse_part_index, part_cache_key,
    restore_entries, CacheLookup, CachedLink,
};

fn args(v: &[&str]) -> Vec<String> {
    v.iter().map(|s| s.to_string()).collect()
}

#[test]
fn video_bridge_arguments() {
    let a = args(&["app", "--video-bridge", "--video-bridge-port", "13371", "--parent-pid", "42"]);
    assert_eq!(parse_video_bridge_args(&a), Some(VideoBridgeProcessArgs { port: 13371, parent_pid: Some(42) }));
    let b = args(&["app", "--video-bridge-port", "13371"]);
    assert_eq!(parse_video_bridge_args(&b), None);
    let c = args(&["app", "--video-bridge", "--video-bridge-port", "70000"]);
    assert_eq!(parse_video_bridge_args(&c), None);
    let d = args(&["app", "--video-bridge", "--video-bridge-port", "1", "--video-bridge-port"]);
    assert_eq!(parse_video_bridge_args(&d), None);
    let e = args(&["--video-bridge", "app", "--video-bridge-port", "9"]);
    assert_eq!(parse_video_bridge_args(&e), None);
    assert_eq!(parse_video_bridge_args(&[]), None);
}

#[test]
fn deep_links() {
    assert_eq!(remove_all_str("omegadrive://play/omegadrive://play/5", "omegadrive://play/"), "5");
    let (a, show) = second_instance_action(&args(&["app", "omegadrive://play/17"]));
    assert_eq!(a, Some(DeepLink::Play(Some(17))));
    assert!(!show);
    let (a, show) = second_instance_action(&args(&["app", "omegadrive://open/x"]));
    assert_eq!(a, Some(DeepLink::Forward("omegadrive://open/x".to_string())));
    assert!(show);
    let (a, show) = second_instance_action(&args(&["app", "omegadrive://play/abc"]));
    assert_eq!(a, Some(DeepLink::Play(None)));
    assert!(!show);
    assert_eq!(second_instance_action(&args(&["app"])), (None, true));
}

#[test]
fn startup_plans() {
    let p = startup_plan(&args(&["app", "--minimized"]));
    assert!(!p.show_ui && p.play_file.is_none() && p.emit_url.is_none());
    let p = startup_plan(&args(&["app", "omegadrive://play/3", "omegadrive://folder/9"]));
    assert!(!p.show_ui);
    assert_eq!(p.play_file, Some(3));
    assert_eq!(p.emit_url.as_deref(), Some("omegadrive://folder/9"));
    let p = startup_plan(&args(&["app", "omegadrive://folder/9"]));
    assert!(p.show_ui && p.play_file.is_none());
}

fn hb(label: &str, last: u64, visible: bool) -> HeartbeatStatus {
    HeartbeatStatus { label: label.to_string(), context: "ctx".to_string(), last_seen_epoch_secs: last, visible, focused: false }
}

#[test]
fn ui_watchdog() {
    let reg = vec![hb("old", 0, true), hb("late", 980, true), hb("fresh", 995, true), hb("hidden", 900, false)];
    let (kept, overdue) = watchdog_sweep(&reg, 1000);
    assert_eq!(kept.iter().map(|h| h.label.as_str()).collect::<Vec<_>>(), vec!["late", "fresh", "hidden"]);
    assert_eq!(overdue, vec![0]);
    assert!(webview_silent(100, 116));
    assert!(!webview_silent(100, 115));
    assert!(!webview_silent(0, 1000));
    assert!(is_stalled_upload("uploading", true));
    assert!(!is_stalled_upload("processing", false));
    assert!(!is_stalled_upload("done", true));
}

#[test]
fn backup_and_purge() {
    assert_eq!(backup_priority("folders"), Some(1));
    assert_eq!(backup_priority("download_jobs"), Some(2));
    assert_eq!(backup_priority("files"), None);
    assert_eq!(row_action_name(RowAction::Update), "update");
    assert_eq!(row_action_name(RowAction::Other), "unknown");
    assert_eq!(purge_step(PurgeStage::Claim, PurgeEvent::Claimed(0)), PurgeStage::Done);
    let s = purge_step(PurgeStage::Claim, PurgeEvent::Claimed(1));
    assert_eq!(s, PurgeStage::DeleteRemote);
    assert_eq!(purge_step(s, PurgeEvent::RemoteDeleted(false)), PurgeStage::Revert);
    let s = purge_step(s, PurgeEvent::RemoteDeleted(true));
    assert_eq!(s, PurgeStage::SnapshotAndDelete);
    assert_eq!(purge_step(s, PurgeEvent::StepDone), PurgeStage::Done);
    assert_eq!(purge_step(PurgeStage::Claim, PurgeEvent::StepDone), PurgeStage::Claim);
}

#[test]
fn parts_grouped_by_platform() {
    let parts = vec![("discord".to_string(), 1), ("telegram".to_string(), 2), ("discord".to_string(), 3)];
    let (keys, groups) = group_by_platform(parts);
    assert_eq!(keys, vec!["discord".to_string(), "telegram".to_string()]);
    assert_eq!(groups, vec![vec![1, 3], vec![2]]);
    assert_eq!(resolve_upload_plan(Some(1), Some(2), 0), 1);
    assert_eq!(resolve_upload_plan(None, None, 0), 0);
    assert_eq!(resolve_upload_plan(None, Some(5), 0), 5);
    assert_eq!(plan_lookup(true, Some(3)), PlanLookup::Given);
    assert_eq!(plan_lookup(false, Some(3)), PlanLookup::Profile(3));
    assert_eq!(plan_lookup(false, None), PlanLookup::FirstProfile);
}

#[test]
fn power_guard_counts_holders() {
    let mut g = PowerGuard::new();
    assert!(g.acquire());
    assert!(!g.acquire());
    assert!(!g.release());
    assert!(g.release());
    assert!(!g.release());
    assert!(g.acquire());
}

#[test]
fn feature_logs() {
    let config = vec![("player".to_string(), false), ("upload".to_string(), true)];
    let switches = feature_switches_from_config(&config);
    assert_eq!(switches.len(), 6);
    assert_eq!(switches[2], ("player".to_string(), false));
    assert_eq!(switches[5], ("diagnostics".to_string(), true));
    let state = FeatureLogState { enabled: switches, log_dir: "logs".to_string(), frontend_enabled: true };
    assert!(!state.is_enabled("player"));
    assert!(state.is_enabled("drive"));
    assert!(!state.is_enabled("unknown"));
    assert!(state.is_target_enabled("anything"));
    assert_eq!(effective_log_level("warn", false), "warn");
    assert!(effective_log_level("warn", true).starts_with("info,omega_drive=trace"));
}

#[test]
fn gpu_adapter_list() {
    let names = gpu_names_from_output("NVIDIA RTX 4070\r\n  \nIntel UHD\nNVIDIA RTX 4070\n");
    assert_eq!(names, args(&["NVIDIA RTX 4070", "Intel UHD", "NVIDIA RTX 4070"]));
    let list = enumerate_gpu_adapters(names);
    assert_eq!(list, args(&["Auto", "NVIDIA RTX 4070", "Intel UHD"]));
    assert_eq!(enumerate_gpu_adapters(args(&["Auto"])), args(&["Auto"]));
}

#[test]
fn binary_versions() {
    assert_eq!(split_words("  ffmpeg version  n6.1 \t x"), args(&["ffmpeg", "version", "n6.1", "x"]));
    assert_eq!(
        binary_version_from_output("ffmpeg", "ffmpeg version n6.1.1-static Copyright\nmore"),
        Some("6.1.1-static".to_string())
    );
    assert_eq!(binary_version_from_output("ffprobe", "ffprobe version"), None);
    assert_eq!(binary_version_from_output("yt-dlp", " 2024.08.06\n"), Some("2024.08.06".to_string()));
    assert_eq!(binary_version_from_output("deno", "deno 1.46.3 (stable)\nv8"), Some("1.46.3".to_string()));
    assert_eq!(binary_version_from_output("other", "x y z"), None);
    let s = binary_status("deno", false, "/bin/deno".to_string(), Some("1".to_string()), true);
    assert!(s.path.is_none() && s.version.is_none() && s.update_available && !s.exists);
    assert!(telegram_env_configured("p", "5", "h"));
    assert!(!telegram_env_configured("p", "0", "h"));
    assert!(!telegram_env_configured("", "5", "h"));
}

fn link(key: &str, url: &str, expiry: i64) -> CachedLink {
    CachedLink { key: key.to_string(), url: url.to_string(), expiry }
}

#[test]
fn url_cache_lookups() {
    let cache = vec![link("1:1", "u1", 1_000), link("1:2", "u2", 1_301), link("1:3", "u3", 1_000)];
    assert_eq!(check_cache(&cache, "1:1", 1_000), CacheLookup::Stale("u1".to_string(), 1_000));
    assert_eq!(check_cache(&cache, "1:2", 1_000), CacheLookup::Hit("u2".to_string(), 1_301));
    assert_eq!(check_cache(&cache, "1:2", 1_001), CacheLookup::Stale("u2".to_string(), 1_301));
    assert_eq!(check_cache(&cache, "2:1", 0), CacheLookup::Miss);
    let cached = Some(("u".to_string(), 500));
    assert_eq!(anti_flap_filter(Some(500), Some(530), 100, cached.clone()), cached.clone());
    assert_eq!(anti_flap_filter(Some(500), Some(531), 100, cached.clone()), None);
    assert_eq!(anti_flap_filter(Some(500), Some(510), 500, cached.clone()), None);
    assert_eq!(anti_flap_filter(None, Some(510), 0, cached), None);
}

#[test]
fn expired_parts_and_snapshots() {
    assert_eq!(part_cache_key(-7, 3), "-7:3");
    let cache = vec![link("9:1", "a", 100), link("9:2", "b", 500), link("19:1", "c", 900)];
    let parts = vec![(1u32, "discord".to_string()), (2, "discord".to_string()), (3, "discord".to_string()), (4, "telegram".to_string())];
    assert_eq!(list_expired_parts(&parts, &cache, 9, 200), vec![1, 3]);
    let snap = build_snapshot(&cache, 9, 200);
    assert_eq!(snap, vec![("9:2".to_string(), "b".to_string(), "500".to_string())]);
    let restored = restore_entries(
        &[
            ("k1".to_string(), "u1".to_string(), "300".to_string()),
            ("k2".to_string(), "u2".to_string(), "bad".to_string()),
            ("k3".to_string(), "u3".to_string(), "100".to_string()),
        ],
        200,
    );
    assert_eq!(restored.len(), 1);
    assert_eq!((restored[0].key.as_str(), restored[0].expiry), ("k1", 300));
}

#[test]
fn part_index_from_names() {
    assert_eq!(parse_part_index("movie.mkv.part12.enc"), Some(12));
    assert_eq!(parse_part_index("movie.part7"), Some(7));
    assert_eq!(parse_part_index("movie.part.enc"), None);
    assert_eq!(parse_part_index("movie.mkv"), None);
    assert_eq!(parse_part_index("a.partx"), None);
}

#[test]
fn frontend_messages_are_routed_by_feature_and_level() {
    let enabled = vec![("player".to_string(), true), ("drive".to_string(), false), ("mystery".to_string(), true)];
    let state = FeatureLogState { enabled, log_dir: "logs".to_string(), frontend_enabled: true };
    assert_eq!(state.frontend_log_route("player", "ERROR"), Some(("feature::player", FrontendLevel::Error)));
    assert_eq!(state.frontend_log_route("player", "Warning"), Some(("feature::player", FrontendLevel::Warn)));
    assert_eq!(state.frontend_log_route("player", "warn"), Some(("feature::player", FrontendLevel::Warn)));
    assert_eq!(state.frontend_log_route("player", "debug"), Some(("feature::player", FrontendLevel::Debug)));
    assert_eq!(state.frontend_log_route("player", "trace"), Some(("feature::player", FrontendLevel::Info)));
    assert_eq!(state.frontend_log_route("mystery", "info"), Some(("feature::unknown", FrontendLevel::Info)));
    assert_eq!(state.frontend_log_route("drive", "error"), None);
    assert_eq!(state.frontend_log_route("absent", "error"), None);
    let off = FeatureLogState {
        enabled: vec![("player".to_string(), true)],
        log_dir: "logs".to_string(),
        frontend_enabled: false,
    };
    assert_eq!(off.frontend_log_route("player", "error"), None);
}

#[test]
fn feature_log_files_exist_only_for_known_features() {
    assert_eq!(feature_log_file_name("upload"), Some("upload.log".to_string()));
    assert_eq!(feature_log_file_name("diagnostics"), Some("diagnostics.log".to_string()));
    assert_eq!(feature_log_file_name("Upload"), None);
    assert_eq!(feature_log_file_name("../etc"), None);
}

#[test]
fn only_web_links_open_outside() {
    assert!(external_url_allowed("https://example.com/a"));
    assert!(external_url_allowed("http://x"));
    assert!(!external_url_allowed("file:///etc/passwd"));
    assert!(!external_url_allowed("HTTPS://example.com"));
    assert!(!external_url_allowed("javascript:alert(1)"));
    assert!(!external_url_allowed("http:/"));
}

#[test]
fn later_cache_entries_replace_earlier_ones() {
    let cache = vec![
        CachedLink { key: "1:1".to_string(), url: "old".to_string(), expiry: 10_000 },
        CachedLink { key: "1:1".to_string(), url: "new".to_string(), expiry: 20_000 },
    ];
    assert_eq!(check_cache(&cache, "1:1", 0), CacheLookup::Hit("new".to_string(), 20_000));
    assert_eq!(check_cache(&cache, "1:2", 0), CacheLookup::Miss);
}

#[test]
fn restored_expiries_stay_within_chrono_dates() {
    let row = |k: &str, e: &str| (k.to_string(), "u".to_string(), e.to_string());
    let restored = restore_entries(
        &[
            row("last", "8210266876799"),
            row("past_last", "8210266876800"),
            row("far", "9223372036854775807"),
        ],
        0,
    );
    assert_eq!(restored.len(), 1);
    assert_eq!((restored[0].key.as_str(), restored[0].expiry), ("last", 8210266876799));
}
