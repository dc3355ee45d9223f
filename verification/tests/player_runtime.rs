use omega_drive::range::part_stream_offset;
use omega_drive::runtime::{
    bridge_probe_ports, bridge_spawn_step, bridge_status_ok, bridge_timeout_message, existing_path_strings,
    mpv_runtime_candidates, native_player_runtime_ready, no_free_port_error, pick_ui_script, working_ip, BridgeAttempt,
    BridgeSpawnAction,
    PlaybackWindows, RuntimeDir,
};

#[test]
fn playback_activity_tracks_windows() {
    let mut w = PlaybackWindows::new();
    assert!(!w.any_active());
    assert!(w.set_active("main".to_string(), true));
    assert!(w.set_active("popup".to_string(), true));
    assert!(w.set_active("main".to_string(), true));
    assert!(w.set_active("main".to_string(), false));
    assert!(w.any_active());
    assert!(!w.set_active("popup".to_string(), false));
    assert!(!w.any_active());
    assert!(!w.set_active("never".to_string(), false));
}

#[test]
fn bridge_spawn_retries_then_gives_up() {
    match bridge_spawn_step(0, BridgeAttempt::Failed("boom".to_string())) {
        BridgeSpawnAction::RetryAfterMs(ms) => assert_eq!(ms, 500),
        other => panic!("unexpected {:?}", other),
    }
    match bridge_spawn_step(1, BridgeAttempt::Failed("boom".to_string())) {
        BridgeSpawnAction::RetryAfterMs(ms) => assert_eq!(ms, 1000),
        other => panic!("unexpected {:?}", other),
    }
    match bridge_spawn_step(2, BridgeAttempt::Failed("no port".to_string())) {
        BridgeSpawnAction::GiveUp(m) => {
            assert_eq!(m, "Failed to spawn video bridge after 3 attempts. Last error: no port")
        }
        other => panic!("unexpected {:?}", other),
    }
    match bridge_spawn_step(2, BridgeAttempt::Ready(19001)) {
        BridgeSpawnAction::Done(p) => assert_eq!(p, 19001),
        other => panic!("unexpected {:?}", other),
    }
}

#[test]
fn bridge_ports_and_status() {
    let ports = bridge_probe_ports(19000);
    assert_eq!(ports.len(), 100);
    assert_eq!(ports[0], 19000);
    assert_eq!(ports[99], 19099);
    assert!(bridge_status_ok(b"HTTP/1.1 200 OK\r\n"));
    assert!(bridge_status_ok(b"HTTP/1.0 200"));
    assert!(!bridge_status_ok(b"HTTP/1.1 404"));
    assert!(!bridge_status_ok(b"HTTP/1.1 20"));
    assert_eq!(
        bridge_timeout_message(19000, "127.0.0.1"),
        "Timed out scanning ports 19000-19099 (probe_ip=127.0.0.1)"
    );
}

#[test]
fn runtime_candidates_in_order() {
    let c = mpv_runtime_candidates(true, true);
    let shown: Vec<(RuntimeDir, bool, &str)> = c.iter().map(|c| (c.dir, c.in_binaries, c.file)).collect();
    assert_eq!(
        shown,
        vec![
            (RuntimeDir::Exe, false, "mpv-1.dll"),
            (RuntimeDir::Exe, false, "mpv.dll"),
            (RuntimeDir::Exe, true, "mpv-1.dll"),
            (RuntimeDir::Exe, true, "mpv.dll"),
            (RuntimeDir::DevBinaries, false, "mpv-1.dll"),
            (RuntimeDir::DevBinaries, false, "mpv.dll"),
        ]
    );
    assert_eq!(mpv_runtime_candidates(false, true).len(), 2);
    assert!(mpv_runtime_candidates(false, false).is_empty());
}

#[test]
fn runtime_readiness() {
    assert!(native_player_runtime_ready(false, &vec![]));
    assert!(!native_player_runtime_ready(true, &vec![false, false]));
    assert!(native_player_runtime_ready(true, &vec![false, true]));
}

#[test]
fn only_existing_paths_are_listed() {
    let paths = vec!["a".to_string(), "b".to_string(), "c".to_string()];
    assert_eq!(existing_path_strings(&paths, &vec![true, false, true]), vec!["a".to_string(), "c".to_string()]);
    assert!(existing_path_strings(&paths, &vec![false, false, false]).is_empty());
}

#[test]
fn ui_script_choice() {
    let c = vec!["x/player_ui.lua".to_string(), "y/player_ui.lua".to_string()];
    assert_eq!(pick_ui_script(&c, &vec![false, true]), Ok(1));
    assert_eq!(pick_ui_script(&c, &vec![true, true]), Ok(0));
    assert_eq!(
        pick_ui_script(&c, &vec![false, false]),
        Err("Failed to locate bundled mpv Lua UI script. Tried 'x/player_ui.lua', 'y/player_ui.lua'.".to_string())
    );
    assert_eq!(
        pick_ui_script(&vec![], &vec![]),
        Err("Failed to locate bundled mpv Lua UI script. Tried .".to_string())
    );
}

#[test]
fn part_offsets_start_at_part_one() {
    assert_eq!(part_stream_offset(1, 8 * 1024 * 1024), 0);
    assert_eq!(part_stream_offset(3, 1000), 2000);
}

#[test]
fn bridge_addresses_and_bind_errors() {
    assert_eq!(working_ip(Some((true, Some([127, 0, 0, 1])))), [127, 0, 0, 1]);
    assert_eq!(working_ip(Some((false, Some([192, 168, 1, 7])))), [192, 168, 1, 7]);
    assert_eq!(working_ip(Some((false, None))), [127, 0, 0, 1]);
    assert_eq!(working_ip(None), [127, 0, 0, 1]);
    assert_eq!(no_free_port_error(19000, "in use"), "No free port in range 19000-19099: in use");
}
