//! Buffering and session decisions of the native player.
use vstd::prelude::*;

verus! {

/// Upper bound on mpv `cache-secs` when the stream is seek sensitive.
pub const RAW_SEEK_CACHE_SECS_CAP: u64 = 5;
/// Upper bound on mpv `demuxer-max-bytes` (in MiB) when the stream is seek sensitive.
pub const RAW_SEEK_DEMUXER_MAX_MB_CAP: u64 = 64;
/// Upper bound on mpv `demuxer-readahead-secs` when the stream is seek sensitive.
pub const RAW_SEEK_READAHEAD_SECS_CAP: u64 = 5;

pub open spec fn min_u64(a: u64, b: u64) -> u64 {
    if a <= b { a } else { b }
}

/// The buffering values handed to mpv: the configured values, each capped when
/// the stream is seek sensitive.
pub fn effective_mpv_buffer_values(
    cache_secs: u64,
    demuxer_max_mb: u64,
    readahead_secs: u64,
    seek_sensitive: bool,
) -> (r: (u64, u64, u64))
    ensures
        !seek_sensitive ==> r == (cache_secs, demuxer_max_mb, readahead_secs),
        seek_sensitive ==> r == (
            min_u64(cache_secs, RAW_SEEK_CACHE_SECS_CAP),
            min_u64(demuxer_max_mb, RAW_SEEK_DEMUXER_MAX_MB_CAP),
            min_u64(readahead_secs, RAW_SEEK_READAHEAD_SECS_CAP),
        ),
{
    if !seek_sensitive {
        return (cache_secs, demuxer_max_mb, readahead_secs);
    }
    (
        if cache_secs <= RAW_SEEK_CACHE_SECS_CAP { cache_secs } else { RAW_SEEK_CACHE_SECS_CAP },
        if demuxer_max_mb <= RAW_SEEK_DEMUXER_MAX_MB_CAP { demuxer_max_mb } else { RAW_SEEK_DEMUXER_MAX_MB_CAP },
        if readahead_secs <= RAW_SEEK_READAHEAD_SECS_CAP { readahead_secs } else { RAW_SEEK_READAHEAD_SECS_CAP },
    )
}

/// `max_mb` MiB in bytes, saturating at `u64::MAX`.
pub fn mpv_demuxer_max_bytes(max_mb: u64) -> (r: u64)
    ensures
        r == if max_mb * 1048576 <= u64::MAX { (max_mb * 1048576) as u64 } else { u64::MAX },
{
    if max_mb <= u64::MAX / 1048576 {
        max_mb * 1048576
    } else {
        u64::MAX
    }
}

} // verus!
