use omega_drive::player_config::{
    apply_discord_limit, apply_provider_update, http_status_error, shown_limits, stream_buffer_bytes,
    ProviderTuning, ProviderUpdate,
};

fn tuning() -> ProviderTuning {
    ProviderTuning {
        parallel_sends: 4,
        send_retries: 3,
        retry_base_delay_s: 2,
        hard_limit_bytes: 50 * 1024 * 1024,
        file_limit_bytes: 25 * 1024 * 1024,
    }
}

#[test]
fn update_replaces_only_given_fields() {
    let mut p = tuning();
    let u = ProviderUpdate {
        parallel_sends: Some(8),
        send_retries: None,
        retry_base_delay_s: None,
        hard_limit_mb: Some(100),
        file_limit_mb: None,
    };
    apply_provider_update(&mut p, &u);
    assert_eq!(p.parallel_sends, 8);
    assert_eq!(p.send_retries, 3);
    assert_eq!(p.retry_base_delay_s, 2);
    assert_eq!(p.hard_limit_bytes, 100 * 1048576);
    assert_eq!(p.file_limit_bytes, 25 * 1048576);
}

#[test]
fn empty_update_changes_nothing() {
    let mut p = tuning();
    let u = ProviderUpdate {
        parallel_sends: None,
        send_retries: None,
        retry_base_delay_s: None,
        hard_limit_mb: None,
        file_limit_mb: None,
    };
    apply_provider_update(&mut p, &u);
    assert_eq!(p, tuning());
}

#[test]
fn discord_limit_sets_both_limits() {
    let mut p = tuning();
    apply_discord_limit(&mut p, 10);
    assert_eq!(p.hard_limit_bytes, 10 * 1048576);
    assert_eq!(p.file_limit_bytes, 10 * 1048576);
    assert_eq!(p.parallel_sends, 4);
    assert_eq!(shown_limits(&p), (10, 10));
}

#[test]
fn shown_limits_round_down() {
    let mut p = tuning();
    p.hard_limit_bytes = 3 * 1048576 + 1048575;
    p.file_limit_bytes = 1048575;
    assert_eq!(shown_limits(&p), (3, 0));
}

#[test]
fn buffer_size_in_bytes() {
    assert_eq!(stream_buffer_bytes(512), 524288);
    assert_eq!(stream_buffer_bytes(0), 0);
}

#[test]
fn http_status_errors() {
    assert_eq!(http_status_error(403), Some("HTTP_403".to_string()));
    assert_eq!(http_status_error(200), None);
    assert_eq!(http_status_error(206), None);
    assert_eq!(http_status_error(404), Some("HTTP_STATUS_404".to_string()));
    assert_eq!(http_status_error(500), Some("HTTP_STATUS_500".to_string()));
    assert_eq!(http_status_error(199), Some("HTTP_STATUS_199".to_string()));
}
