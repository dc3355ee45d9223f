use omega_drive::mpv::{
    add_audio_id, audio_file_id_from_url, audio_track_plan, format_mpv_error, format_mpv_script_path,
    hwdec_for_adapter, monitor_step, native_player_runtime_error, picker_request, session_event_step, session_type_or_default,
    session_window_label, should_release_file_cache, AttachmentKind, EventAction, MonitorStep, MpvEvent, MpvSessionType,
    SessionEventState,
};
use omega_drive::text::{
    decimal_string, parse_i32, parse_i64, str_lt, trim_string, u64_decimal_string,
};

#[test]
fn text_helpers() {
    assert_eq!(trim_string("\u{a0} a b \u{2003}"), "a b");
    assert_eq!(parse_i32("-2147483648"), Some(i32::MIN));
    assert_eq!(parse_i32("2147483648"), None);
    assert_eq!(parse_i32("+12"), Some(12));
    assert_eq!(parse_i32("-"), None);
    assert_eq!(parse_i64("-9223372036854775808"), Some(i64::MIN));
    assert_eq!(parse_i64("12a"), None);
    assert_eq!(decimal_string(-120), "-120");
    assert_eq!(decimal_string(i64::MIN), "-9223372036854775808");
    assert_eq!(u64_decimal_string(0), "0");
    assert!(str_lt("ab", "b"));
    assert!(str_lt("a", "ab"));
    assert!(!str_lt("b", "ab"));
    assert!(!str_lt("x", "x"));
}

#[test]
fn session_kinds() {
    assert_eq!(session_type_or_default(None), MpvSessionType::Video);
    assert_eq!(session_type_or_default(Some(MpvSessionType::Audio)), MpvSessionType::Audio);
    assert_eq!(session_window_label(MpvSessionType::Audio), "audio-headless");
    assert_eq!(session_window_label(MpvSessionType::Video), "native-mpv");
}

#[test]
fn cache_release_rule() {
    assert!(should_release_file_cache(None, 5));
    assert!(should_release_file_cache(Some(4), 5));
    assert!(!should_release_file_cache(Some(5), 5));
}

#[test]
fn mpv_strings() {
    assert_eq!(native_player_runtime_error(), "Native player runtime (mpv) is not ready.");
    assert_eq!(format_mpv_error("Failed to seek mpv", "Raw(-4)"), "Failed to seek mpv: Raw(-4)");
    assert_eq!(format_mpv_script_path("C:\\app\\player_ui.lua"), "C:/app/player_ui.lua");
    assert_eq!(format_mpv_script_path("/usr/share"), "/usr/share");
    assert_eq!(hwdec_for_adapter("Auto"), ("auto", false));
    assert_eq!(hwdec_for_adapter("NVIDIA RTX"), ("d3d11va", true));
}

#[test]
fn audio_urls() {
    assert_eq!(audio_file_id_from_url("http://10.0.0.2:13370/raw/42"), 42);
    assert_eq!(audio_file_id_from_url("http://h/raw/42 \n"), 42);
    assert_eq!(audio_file_id_from_url("http://h/raw/42/raw/7"), 42);
    assert_eq!(audio_file_id_from_url("http://h/raw/x"), -1);
    assert_eq!(audio_file_id_from_url("http://h/file/42"), -1);
    assert_eq!(audio_file_id_from_url("http://h/raw/-3"), -3);
}

#[test]
fn audio_plans() {
    assert_eq!(audio_track_plan(Some(vec![3, 4]), Some(4)), vec![(3, false), (4, true)]);
    assert_eq!(audio_track_plan(Some(vec![3]), Some(9)), vec![(3, false), (9, true)]);
    assert_eq!(audio_track_plan(None, Some(9)), vec![(9, true)]);
    assert_eq!(audio_track_plan(None, None), vec![]);
    assert_eq!(add_audio_id(vec![1, 2], 2), vec![1, 2]);
    assert_eq!(add_audio_id(vec![1, 2], 3), vec![1, 2, 3]);
}

#[test]
fn picker_and_events() {
    assert_eq!(picker_request("subtitle:en"), Some(AttachmentKind::Subtitle));
    assert_eq!(picker_request("audio"), Some(AttachmentKind::Audio));
    assert_eq!(picker_request("video"), None);
    let s = SessionEventState { alive: true, reached_eof: false, audio_tracks_loaded: false, observes_ui: true };
    let (s1, a1, stop1) = session_event_step(s, &MpvEvent::EndOfFile);
    assert!(s1.reached_eof && s1.alive && !stop1 && a1 == EventAction::Nothing);
    let (s2, a2, _) = session_event_step(s1, &MpvEvent::DurationKnown { positive: true });
    assert!(s2.audio_tracks_loaded && a2 == EventAction::LoadPendingAudioTracks);
    let (_, a3, _) = session_event_step(s2, &MpvEvent::DurationKnown { positive: true });
    assert_eq!(a3, EventAction::Nothing);
    let (_, a4, _) = session_event_step(s2, &MpvEvent::PickerRequested("subtitle".to_string()));
    assert_eq!(a4, EventAction::OpenPicker(AttachmentKind::Subtitle));
    let (s5, _, stop5) = session_event_step(s2, &MpvEvent::Shutdown);
    assert!(!s5.alive && stop5);
    let headless = SessionEventState { observes_ui: false, ..s };
    let (_, a6, _) = session_event_step(headless, &MpvEvent::AudioTrackChanged);
    assert_eq!(a6, EventAction::Nothing);
}

#[test]
fn session_monitor_steps() {
    assert_eq!(monitor_step(None, 4, true), MonitorStep::Stop);
    assert_eq!(monitor_step(Some(5), 4, true), MonitorStep::Stop);
    assert_eq!(monitor_step(Some(5), 4, false), MonitorStep::Stop);
    assert_eq!(monitor_step(Some(4), 4, false), MonitorStep::TearDown);
    assert_eq!(monitor_step(Some(4), 4, true), MonitorStep::Watch);
}
