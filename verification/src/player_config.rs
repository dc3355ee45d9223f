//! The player settings page: the transfer tuning of each storage provider
//! and the stream buffer, shown in MiB and KiB and stored in bytes.
use vstd::prelude::*;
use crate::text::{decimal_digits, u64_decimal_string};

verus! {

/// The tuning of one storage provider.
#[derive(Debug, Clone, Copy, PartialEq, Eq, Structural)]
pub struct ProviderTuning {
    pub parallel_sends: usize,
    pub send_retries: u32,
    pub retry_base_delay_s: u64,
    pub hard_limit_bytes: u64,
    pub file_limit_bytes: u64,
}

/// The fields of a provider that a settings update carries (absent when not
/// given or not an unsigned integer).
#[derive(Debug, Clone, Copy, PartialEq, Eq, Structural)]
pub struct ProviderUpdate {
    pub parallel_sends: Option<u64>,
    pub send_retries: Option<u64>,
    pub retry_base_delay_s: Option<u64>,
    pub hard_limit_mb: Option<u64>,
    pub file_limit_mb: Option<u64>,
}

pub open spec fn mib(v: u64) -> int {
    v * 1048576
}

/// A size given in MiB fits in bytes.
pub open spec fn mib_fits(v: Option<u64>) -> bool {
    v matches Some(x) ==> mib(x) <= u64::MAX
}

/// The tuning after an update: each given field replaces the stored one
/// (counts narrowed to their stored width, sizes from MiB to bytes).
pub open spec fn updated_tuning(p: ProviderTuning, u: ProviderUpdate) -> ProviderTuning {
    ProviderTuning {
        parallel_sends: match u.parallel_sends {
            Some(v) => v as usize,
            None => p.parallel_sends,
        },
        send_retries: match u.send_retries {
            Some(v) => v as u32,
            None => p.send_retries,
        },
        retry_base_delay_s: match u.retry_base_delay_s {
            Some(v) => v,
            None => p.retry_base_delay_s,
        },
        hard_limit_bytes: match u.hard_limit_mb {
            Some(v) => mib(v) as u64,
            None => p.hard_limit_bytes,
        },
        file_limit_bytes: match u.file_limit_mb {
            Some(v) => mib(v) as u64,
            None => p.file_limit_bytes,
        },
    }
}

/// Applies a settings update to a provider's tuning.
pub fn apply_provider_update(p: &mut ProviderTuning, u: &ProviderUpdate)
    requires
        mib_fits(u.hard_limit_mb),
        mib_fits(u.file_limit_mb),
    ensures
        *final(p) == updated_tuning(*old(p), *u),
{
    if let Some(v) = u.parallel_sends {
        p.parallel_sends = v as usize;
    }
    if let Some(v) = u.send_retries {
        p.send_retries = v as u32;
    }
    if let Some(v) = u.retry_base_delay_s {
        p.retry_base_delay_s = v;
    }
    if let Some(v) = u.hard_limit_mb {
        p.hard_limit_bytes = v * 1048576;
    }
    if let Some(v) = u.file_limit_mb {
        p.file_limit_bytes = v * 1048576;
    }
}

/// The Discord limit shortcut: both limits set to the same size in MiB.
pub fn apply_discord_limit(p: &mut ProviderTuning, limit_mb: u64)
    requires
        mib(limit_mb) <= u64::MAX,
    ensures
        *final(p) == (ProviderTuning {
            hard_limit_bytes: mib(limit_mb) as u64,
            file_limit_bytes: mib(limit_mb) as u64,
            ..*old(p)
        }),
{
    let bytes = limit_mb * 1048576;
    p.hard_limit_bytes = bytes;
    p.file_limit_bytes = bytes;
}

/// The stream buffer size in bytes for a size given in KiB.
pub fn stream_buffer_bytes(kb: u64) -> (r: usize)
    requires
        kb * 1024 <= u64::MAX,
    ensures
        r == ((kb * 1024) as u64) as usize,
{
    (kb * 1024) as usize
}

/// The limits as the settings page shows them: whole MiB, rounded down.
pub fn shown_limits(p: &ProviderTuning) -> (r: (u64, u64))
    ensures
        r == (p.hard_limit_bytes / 1048576, p.file_limit_bytes / 1048576),
{
    (p.hard_limit_bytes / 1024 / 1024, p.file_limit_bytes / 1024 / 1024)
}

/// The error of a failed download for an HTTP status: `HTTP_403` for
/// Forbidden, `HTTP_STATUS_<code>` for other statuses outside 200-299, none
/// for success.
pub fn http_status_error(status: u16) -> (r: Option<String>)
    ensures
        status == 403 ==> (r matches Some(s) && s@ == "HTTP_403"@),
        status != 403 && 200 <= status <= 299 ==> r is None,
        status != 403 && !(200 <= status <= 299) ==> (r matches Some(s) && s@ == "HTTP_STATUS_"@ + decimal_digits(
            status as nat,
        )),
{
    if status == 403 {
        return Some(String::from_str("HTTP_403"));
    }
    if 200 <= status && status <= 299 {
        return None;
    }
    let mut s = String::from_str("HTTP_STATUS_");
    s.append(u64_decimal_string(status as u64).as_str());
    Some(s)
}

} // verus!
