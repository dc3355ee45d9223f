use omega_drive::playback::{effective_mpv_buffer_values, mpv_demuxer_max_bytes};
use omega_drive::range::{
    build_range_plan, next_stream_generation, raw_answer, RawAnswer, content_range, guess_media_content_type, is_seek_jump, parse_range, playback_chunk_size,
    track_range_request, RangeTracker,
};
use omega_drive::telemetry::{SegmentFetchSample, SegmentTelemetry};
use omega_drive::video_index::{
    build_index_hint_from_windows, container_from_head, find_ascii_marker, find_binary_marker, index_hint_part, looks_like_mkv,
    looks_like_mp4, parse_idx_file, ContainerHint, IdxCache, IdxEntry,
};

#[test]
fn range_header_forms() {
    assert_eq!(parse_range(Some("bytes=0-99"), 1000), Some((0, 99)));
    assert_eq!(parse_range(Some("bytes=100-"), 1000), Some((100, 999)));
    assert_eq!(parse_range(Some("bytes=-100"), 1000), Some((900, 999)));
    assert_eq!(parse_range(Some("bytes=-5000"), 1000), Some((0, 999)));
    assert_eq!(parse_range(Some("bytes=0-5000"), 1000), Some((0, 999)));
    assert_eq!(parse_range(Some("bytes=100-200"), 50), Some((100, 49)));
    assert_eq!(parse_range(Some("bytes=-0"), 1000), None);
    assert_eq!(parse_range(Some("bytes=5-1"), 1000), None);
    assert_eq!(parse_range(Some("bytes=1-2-3"), 1000), None);
    assert_eq!(parse_range(Some("items=0-1"), 1000), None);
    assert_eq!(parse_range(Some("bytes=0-1"), 0), None);
    assert_eq!(parse_range(Some("bytes=0-1"), -5), None);
    assert_eq!(parse_range(Some("bytes=+3-4"), 10), Some((3, 4)));
    assert_eq!(parse_range(None, 10), None);
}

#[test]
fn content_types_by_extension() {
    assert_eq!(guess_media_content_type("Movie.MP4"), "video/mp4");
    assert_eq!(guess_media_content_type("a.m4v"), "video/mp4");
    assert_eq!(guess_media_content_type("a.mkv"), "video/x-matroska");
    assert_eq!(guess_media_content_type("a.webm"), "video/webm");
    assert_eq!(guess_media_content_type("song.FlAc"), "audio/flac");
    assert_eq!(guess_media_content_type("voice.opus"), "audio/opus");
    assert_eq!(guess_media_content_type("notes.txt"), "application/octet-stream");
}

#[test]
fn range_plan_spans_parts() {
    let parts = [(1u32, 10u64), (2, 10), (3, 10)];
    let plan = build_range_plan(&parts, 5, 24);
    assert_eq!(plan.parts.len(), 3);
    assert_eq!((plan.parts[0].part_index, plan.parts[0].slice_start, plan.parts[0].slice_len), (1, 5, 5));
    assert_eq!((plan.parts[1].part_index, plan.parts[1].file_offset, plan.parts[1].slice_len), (2, 10, 10));
    assert_eq!((plan.parts[2].part_index, plan.parts[2].slice_start, plan.parts[2].slice_len), (3, 0, 5));
    let single = build_range_plan(&parts, 12, 13);
    assert_eq!(single.parts.len(), 1);
    assert_eq!((single.parts[0].part_index, single.parts[0].slice_start, single.parts[0].slice_len), (2, 2, 2));
}

#[test]
fn seek_jump_heuristic() {
    let mib = 1024 * 1024;
    // Forward jump past the last range plus one part.
    assert!(is_seek_jump(0, mib, 3 * mib, 100 * mib as i64, mib, true));
    // Sequential read is no seek.
    assert!(!is_seek_jump(0, mib, mib + 1, 100 * mib as i64, mib, true));
    // Debounced.
    assert!(!is_seek_jump(0, mib, 3 * mib, 100 * mib as i64, mib, false));
    // A backward jump from the tail over half the file probes the index.
    let size = 200 * mib;
    assert!(!is_seek_jump(size - mib, size - 1, 0, size as i64, mib, true));
    assert!(is_seek_jump(50 * mib, 51 * mib, 10 * mib, size as i64, mib, true));
}

#[test]
fn range_tracker_debounces() {
    let mib = 1024 * 1024;
    let (t0, d0) = track_range_request(None, 0, mib, 1_000, 100 * mib as i64, mib);
    assert!(!d0);
    assert_eq!(t0, RangeTracker { last_start: 0, last_end: mib, last_detection_ms: 1_000 });
    let (t1, d1) = track_range_request(Some(t0), 10 * mib, 11 * mib, 1_600, 100 * mib as i64, mib);
    assert!(d1);
    assert_eq!(t1.last_detection_ms, 1_600);
    let (t2, d2) = track_range_request(Some(t1), 40 * mib, 41 * mib, 1_900, 100 * mib as i64, mib);
    assert!(!d2);
    assert_eq!(t2.last_detection_ms, 1_600);
    assert_eq!(t2.last_start, 40 * mib);
}

#[test]
fn chunk_size_and_content_range() {
    assert_eq!(playback_chunk_size(8, Some(5)), 5);
    assert_eq!(playback_chunk_size(8, Some(0)), 8);
    assert_eq!(playback_chunk_size(8, Some(-3)), 8);
    assert_eq!(playback_chunk_size(8, None), 8);
    assert_eq!(content_range(0, 99, 1000), "bytes 0-99/1000");
    assert_eq!(content_range(5, 18446744073709551614, -1), "bytes 5-18446744073709551614/-1");
}

#[test]
fn mpv_buffering_caps() {
    assert_eq!(effective_mpv_buffer_values(30, 512, 20, false), (30, 512, 20));
    assert_eq!(effective_mpv_buffer_values(30, 512, 20, true), (5, 64, 5));
    assert_eq!(effective_mpv_buffer_values(3, 32, 2, true), (3, 32, 2));
    assert_eq!(mpv_demuxer_max_bytes(64), 64 * 1024 * 1024);
    assert_eq!(mpv_demuxer_max_bytes(u64::MAX), u64::MAX);
}

fn sample(provider: &str, ttfb_ms: u64, retries: u32, ok: bool) -> SegmentFetchSample {
    SegmentFetchSample { provider: provider.to_string(), bytes: 1, ttfb_ms, total_ms: 1, retries, ok }
}

#[test]
fn telemetry_recommendations() {
    let mut t = SegmentTelemetry::new(0);
    assert_eq!(t.recommended_parallelism("d", 6), 6);
    assert_eq!(t.recommended_parallelism("d", 0), 1);
    for _ in 0..4 {
        t.record(sample("d", 100, 0, true));
    }
    // Limit 1 keeps one sample only: fewer than four recent ones.
    assert_eq!(t.recommended_parallelism("d", 6), 6);
    let mut t = SegmentTelemetry::new(16);
    for _ in 0..4 {
        t.record(sample("d", 100, 0, true));
    }
    assert_eq!(t.recommended_parallelism("d", 6), 6);
    t.record(sample("d", 100, 1, true));
    assert_eq!(t.recommended_parallelism("d", 6), 2);
    t.record(sample("d", 100, 0, false));
    t.record(sample("d", 100, 0, false));
    assert_eq!(t.recommended_parallelism("d", 6), 1);
    let mut slow = SegmentTelemetry::default();
    for _ in 0..4 {
        slow.record(sample("t", 900, 0, true));
    }
    assert_eq!(slow.recommended_parallelism("t", 8), 2);
    assert_eq!(slow.recommended_parallelism("other", 8), 8);
}

#[test]
fn container_detection() {
    let mut head = vec![0u8; 4];
    head.extend_from_slice(b"ftypisom");
    assert!(looks_like_mp4(&head));
    assert!(!looks_like_mkv(&head));
    let mkv = [0x1Au8, 0x45, 0xDF, 0xA3, 0, 0];
    assert!(looks_like_mkv(&mkv));
    assert_eq!(container_from_head(&head), Some(ContainerHint::Mp4));
    assert_eq!(container_from_head(&mkv), Some(ContainerHint::Mkv));
    assert_eq!(container_from_head(b"plain"), None);
    let mut both = mkv.to_vec();
    both.extend_from_slice(b"ftyp");
    assert_eq!(container_from_head(&both), Some(ContainerHint::Mp4));
    assert_eq!(find_ascii_marker(b"xxmoovxx", b"moov"), Some(2));
    assert_eq!(find_binary_marker(b"ab", b"abc"), None);
}

#[test]
fn index_hints() {
    let mut head = b"....ftyp....moov".to_vec();
    let h = build_index_hint_from_windows(&head, Some(b"..stss"), 10, 7).unwrap();
    assert_eq!(h.container, Some(ContainerHint::Mp4));
    assert_eq!(h.hinted_parts, vec![1, 7]);
    head.truncate(8);
    let h = build_index_hint_from_windows(&head, None, 10, 7).unwrap();
    assert_eq!(h.hinted_parts, Vec::<u32>::new());
    let mkv = [0x1Au8, 0x45, 0xDF, 0xA3];
    let h = build_index_hint_from_windows(&mkv, None, 10, 7).unwrap();
    assert_eq!(h.container, Some(ContainerHint::Mkv));
    assert_eq!(h.hinted_parts, vec![7]);
    assert!(build_index_hint_from_windows(b"plain", None, 10, 7).is_none());
    assert_eq!(index_hint_part(25, 10), 3);
    assert_eq!(index_hint_part(25, 0), 1);
}

#[test]
fn idx_file_window() {
    let mut data = b"IDXC".to_vec();
    data.extend_from_slice(&100u64.to_be_bytes());
    data.extend_from_slice(&4u64.to_be_bytes());
    data.extend_from_slice(b"wxyz");
    let e: IdxEntry = parse_idx_file(&data).unwrap();
    assert_eq!((e.offset, e.size), (100, 4));
    assert_eq!(e.bytes, b"wxyz".to_vec());
    assert!(e.overlaps(102, 10));
    assert!(!e.overlaps(104, 10));
    assert_eq!(e.slice_for(102, 10), Some(b"yz".to_vec()));
    assert_eq!(e.slice_for(90, 11), Some(b"w".to_vec()));
    assert_eq!(e.slice_for(0, 5), None);
    assert!(parse_idx_file(b"IDXD0000000000000000").is_none());
    assert!(parse_idx_file(b"IDXC").is_none());
}

#[test]
fn raw_answers_and_stream_generations() {
    assert_eq!(raw_answer(false, Some("bytes=0-1"), 10), RawAnswer::NotReady);
    assert_eq!(raw_answer(true, Some("bytes=2-5"), 10), RawAnswer::Partial(2, 5));
    assert_eq!(raw_answer(true, None, 10), RawAnswer::Whole);
    assert_eq!(next_stream_generation(None), 1);
    assert_eq!(next_stream_generation(Some(4)), 5);
}

#[test]
fn idx_cache_keeps_what_it_read() {
    let mut cache = IdxCache::new();
    assert!(cache.cached(7).is_none());
    let mut data = b"IDXC".to_vec();
    data.extend_from_slice(&512u64.to_be_bytes());
    data.extend_from_slice(&3u64.to_be_bytes());
    data.extend_from_slice(b"abc");
    let e = cache.take_in(7, &data).unwrap();
    assert_eq!((e.offset, e.size, e.bytes.clone()), (512, 3, b"abc".to_vec()));
    let again = cache.cached(7).unwrap();
    assert_eq!((again.offset, again.size, again.bytes), (512, 3, b"abc".to_vec()));
    assert!(cache.take_in(8, b"IDXC").is_none());
    assert!(cache.cached(8).is_none());
    assert!(cache.cached(7).is_some());
}
