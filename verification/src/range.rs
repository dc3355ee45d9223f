//! HTTP byte ranges of the raw-file bridge: the `Range` header, the plan that
//! maps a byte range onto the file's stored parts, the content type, and the
//! heuristic that spots a seek from a jump between requested ranges.
use vstd::prelude::*;
use crate::text::{
    chars_of, decimal, decimal_digits, decimal_string, lemma_parse_unsigned_bounds, parse_unsigned, parse_unsigned_range,
    u64_decimal_string,
};

verus! {

/// One stored part's share of a requested byte range.
#[derive(Debug, Clone, Copy, PartialEq, Eq)]
pub struct RangePart {
    pub part_index: u32,
    /// Where the part starts in the file.
    pub file_offset: u64,
    /// First byte of the part to send.
    pub slice_start: u64,
    pub slice_len: u64,
}

/// The parts to read, in file order, to serve a byte range.
#[derive(Debug)]
pub struct RangePlan {
    pub parts: Vec<RangePart>,
}

/// Where part `i` starts: the sum of the sizes of the parts before it.
pub open spec fn part_offset(parts: Seq<(u32, u64)>, i: int) -> int
    decreases i,
{
    if i <= 0 {
        0
    } else {
        part_offset(parts, i - 1) + parts[i - 1].1
    }
}

/// Part `i`'s share of the inclusive range `[start, end]`, if it has one.
pub open spec fn part_share(parts: Seq<(u32, u64)>, i: int, start: u64, end: u64) -> Option<RangePart> {
    let o = part_offset(parts, i);
    let size = parts[i].1 as int;
    let s = if start >= o { start - o } else { 0 };
    let e = if end + 1 - o <= size { end + 1 - o } else { size };
    if o <= end && o + size > start && e > s {
        Some(RangePart { part_index: parts[i].0, file_offset: o as u64, slice_start: s as u64, slice_len: (e - s) as u64 })
    } else {
        None
    }
}

/// The shares of the first `n` parts, in order.
pub open spec fn plan_of(parts: Seq<(u32, u64)>, n: int, start: u64, end: u64) -> Seq<RangePart>
    decreases n,
{
    if n <= 0 {
        Seq::empty()
    } else {
        let r = plan_of(parts, n - 1, start, end);
        match part_share(parts, n - 1, start, end) {
            Some(p) => r.push(p),
            None => r,
        }
    }
}

proof fn lemma_part_offset_mono(parts: Seq<(u32, u64)>, i: int, j: int)
    requires
        0 <= i <= j <= parts.len(),
    ensures
        part_offset(parts, i) <= part_offset(parts, j),
    decreases j - i,
{
    if i < j {
        lemma_part_offset_mono(parts, i, j - 1);
    }
}

proof fn lemma_plan_tail_empty(parts: Seq<(u32, u64)>, i: int, n: int, start: u64, end: u64)
    requires
        0 <= i <= n <= parts.len(),
        part_offset(parts, i) > end,
    ensures
        plan_of(parts, n, start, end) == plan_of(parts, i, start, end),
    decreases n - i,
{
    if i < n {
        lemma_plan_tail_empty(parts, i, n - 1, start, end);
        lemma_part_offset_mono(parts, i, n - 1);
    }
}

/// Splits the inclusive byte range `[start, end]` over `parts`, given in file
/// order as `(part_index, size)`: one entry per part that the range meets.
pub fn build_range_plan(parts: &[(u32, u64)], start: u64, end: u64) -> (r: RangePlan)
    requires
        end < u64::MAX,
        forall|i: int| 0 <= i < parts@.len() && #[trigger] part_offset(parts@, i) <= end ==> part_offset(parts@, i + 1) <= u64::MAX,
    ensures
        r.parts@ == plan_of(parts@, parts@.len() as int, start, end),
{
    let mut result: Vec<RangePart> = Vec::new();
    let mut offset: u64 = 0;
    let mut i: usize = 0;
    while i < parts.len()
        invariant_except_break
            offset <= end || i == 0,
        invariant
            0 <= i <= parts@.len(),
            end < u64::MAX,
            forall|k: int| 0 <= k < parts@.len() && #[trigger] part_offset(parts@, k) <= end ==> part_offset(parts@, k + 1) <= u64::MAX,
            offset == part_offset(parts@, i as int),
            result@ == plan_of(parts@, i as int, start, end),
        ensures
            result@ == plan_of(parts@, parts@.len() as int, start, end),
        decreases parts@.len() - i,
    {
        let (part_index, size) = parts[i];
        assert(part_offset(parts@, i as int) <= end);
        let part_end: u64 = offset + size;
        if offset <= end && part_end > start {
            let slice_start: u64 = if start >= offset { start - offset } else { 0 };
            let e1: u64 = if end + 1 >= offset { end + 1 - offset } else { 0 };
            let slice_end: u64 = if e1 <= size { e1 } else { size };
            if slice_end > slice_start {
                result.push(
                    RangePart { part_index, file_offset: offset, slice_start, slice_len: slice_end - slice_start },
                );
            }
        }
        offset = part_end;
        i = i + 1;
        if offset > end {
            proof {
                lemma_plan_tail_empty(parts@, i as int, parts@.len() as int, start, end);
            }
            break;
        }
    }
    RangePlan { parts: result }
}

/// The characters `bytes=`.
pub open spec fn bytes_prefix() -> Seq<char> {
    seq!['b', 'y', 't', 'e', 's', '=']
}

/// `s` has exactly one `-`, at `k`.
pub open spec fn single_dash_at(s: Seq<char>, k: int) -> bool {
    &&& 0 <= k < s.len()
    &&& s[k] == '-'
    &&& forall|j: int| 0 <= j < s.len() && j != k ==> #[trigger] s[j] != '-'
}

/// The byte range that a `Range` header asks of a file of `file_size` bytes:
/// `bytes=a-b`, `bytes=a-` or the suffix form `bytes=-n`, as an inclusive
/// range clamped to the file.
pub open spec fn parse_range_spec(range: Option<Seq<char>>, file_size: i64) -> Option<(u64, u64)> {
    match range {
        None => None,
        Some(s) => {
            if !(s.len() >= 6 && s.subrange(0, 6) == bytes_prefix()) {
                None
            } else {
                let rest = s.skip(6);
                if !(exists|k: int| single_dash_at(rest, k)) {
                    None
                } else {
                    let k = choose|k: int| single_dash_at(rest, k);
                    let a = rest.take(k);
                    let b = rest.skip(k + 1);
                    let size: int = if file_size > 0 { file_size as int } else { 0 };
                    if size == 0 {
                        None
                    } else if a.len() == 0 {
                        match parse_unsigned(b, u64::MAX as int) {
                            None => None,
                            Some(n) => if n == 0 {
                                None
                            } else {
                                Some(((if size >= n { size - n } else { 0 }) as u64, (size - 1) as u64))
                            },
                        }
                    } else {
                        match parse_unsigned(a, u64::MAX as int) {
                            None => None,
                            Some(st) => {
                                let en = if b.len() == 0 { Some(size - 1) } else { parse_unsigned(b, u64::MAX as int) };
                                match en {
                                    None => None,
                                    Some(e) => if st > e {
                                        None
                                    } else {
                                        Some((st as u64, (if e <= size - 1 { e } else { size - 1 }) as u64))
                                    },
                                }
                            },
                        }
                    }
                }
            }
        },
    }
}

/// Law: a parsed range ends within the file, and starts no later than it
/// ends when it starts within the file.
pub proof fn lemma_parse_range_within(range: Option<Seq<char>>, file_size: i64)
    ensures
        parse_range_spec(range, file_size) matches Some((s, e)) ==> (e as int) < file_size && ((s as int)
            < file_size ==> s <= e),
{
    if let Some(s) = range {
        let rest = s.skip(6);
        if exists|k: int| single_dash_at(rest, k) {
            let k = choose|k: int| single_dash_at(rest, k);
            lemma_parse_unsigned_bounds(rest.take(k), u64::MAX as int);
            lemma_parse_unsigned_bounds(rest.skip(k + 1), u64::MAX as int);
        }
    }
}

/// Reads a `Range` header against a file of `file_size` bytes.
pub fn parse_range(range: Option<&str>, file_size: i64) -> (r: Option<(u64, u64)>)
    ensures
        r == parse_range_spec(
            match range {
                Some(s) => Some(s@),
                None => None,
            },
            file_size,
        ),
{
    let range = match range {
        None => {
            return None;
        },
        Some(s) => s,
    };
    let s = chars_of(range);
    let ghost sv = s@;
    let n = s.len();
    if !(n >= 6 && s[0] == 'b' && s[1] == 'y' && s[2] == 't' && s[3] == 'e' && s[4] == 's' && s[5] == '=') {
        proof {
            if sv.len() >= 6 && sv.subrange(0, 6) == bytes_prefix() {
                assert(sv[0] == sv.subrange(0, 6)[0]);
                assert(sv[1] == sv.subrange(0, 6)[1]);
                assert(sv[2] == sv.subrange(0, 6)[2]);
                assert(sv[3] == sv.subrange(0, 6)[3]);
                assert(sv[4] == sv.subrange(0, 6)[4]);
                assert(sv[5] == sv.subrange(0, 6)[5]);
            }
        }
        return None;
    }
    assert(sv.subrange(0, 6) =~= bytes_prefix());
    let ghost rest = sv.skip(6);
    // find the dashes
    let mut dash: usize = 0;
    let mut count: usize = 0;
    let mut i: usize = 6;
    while i < n
        invariant
            6 <= i <= n == sv.len(),
            s@ == sv,
            rest == sv.skip(6),
            count <= i,
            count == 0 ==> forall|j: int| 6 <= j < i ==> #[trigger] sv[j] != '-',
            count >= 1 ==> 6 <= dash < i && sv[dash as int] == '-',
            count == 1 ==> forall|j: int| 6 <= j < i && j != dash ==> #[trigger] sv[j] != '-',
            count >= 2 ==> exists|j: int| 6 <= j < i && j != dash && #[trigger] sv[j] == '-',
        decreases n - i,
    {
        if s[i] == '-' {
            if count == 0 {
                dash = i;
            }
            count = count + 1;
        }
        i = i + 1;
    }
    if count != 1 {
        proof {
            if exists|k: int| single_dash_at(rest, k) {
                let k = choose|k: int| single_dash_at(rest, k);
                assert(rest[k] == sv[k + 6]);
                if count == 0 {
                    assert(sv[k + 6] != '-');
                } else {
                    let j = choose|j: int| 6 <= j < n && j != dash && #[trigger] sv[j] == '-';
                    assert(rest[j - 6] == sv[j]);
                    assert(rest[dash - 6] == sv[dash as int]);
                    if k != j - 6 {
                        assert(rest[j - 6] != '-');
                    } else {
                        assert(rest[dash - 6] != '-');
                    }
                }
            }
        }
        return None;
    }
    proof {
        let k = dash - 6;
        assert forall|j: int| 0 <= j < rest.len() && j != k implies #[trigger] rest[j] != '-' by {
            assert(rest[j] == sv[j + 6]);
        }
        assert(single_dash_at(rest, k));
        let k0 = choose|k: int| single_dash_at(rest, k);
        if k0 != k {
            assert(rest[k] != '-');
        }
        assert(rest.take(k) =~= sv.subrange(6, dash as int));
        assert(rest.skip(k + 1) =~= sv.subrange(dash + 1, n as int));
        lemma_parse_unsigned_bounds(rest.take(k), u64::MAX as int);
        lemma_parse_unsigned_bounds(rest.skip(k + 1), u64::MAX as int);
    }
    let size: u64 = if file_size > 0 { file_size as u64 } else { 0 };
    if size == 0 {
        return None;
    }
    if dash == 6 {
        let suffix = match parse_unsigned_range(&s, dash + 1, n, u64::MAX) {
            None => {
                return None;
            },
            Some(v) => v,
        };
        if suffix == 0 {
            return None;
        }
        let start: u64 = if size >= suffix { size - suffix } else { 0 };
        return Some((start, size - 1));
    }
    let start = match parse_unsigned_range(&s, 6, dash, u64::MAX) {
        None => {
            return None;
        },
        Some(v) => v,
    };
    let end: u64 = if dash + 1 == n {
        size - 1
    } else {
        match parse_unsigned_range(&s, dash + 1, n, u64::MAX) {
            None => {
                return None;
            },
            Some(v) => v,
        }
    };
    if start > end {
        return None;
    }
    Some((start, if end <= size - 1 { end } else { size - 1 }))
}

/// `c` equals the lower-case ASCII character `lower`, ignoring ASCII case.
pub open spec fn eq_ignore_case(c: char, lower: char) -> bool {
    c == lower || ('a' <= lower <= 'z' && c as u32 == (lower as u32 - 32) as u32)
}

/// `s` ends with the lower-case ASCII text `suffix`, ignoring ASCII case.
pub open spec fn ends_with_ignore_case(s: Seq<char>, suffix: Seq<char>) -> bool {
    s.len() >= suffix.len() && forall|i: int|
        0 <= i < suffix.len() ==> #[trigger] eq_ignore_case(s[s.len() - suffix.len() + i], suffix[i])
}

fn ends_with_ci(s: &Vec<char>, suffix: &str) -> (r: bool)
    ensures
        r == ends_with_ignore_case(s@, suffix@),
{
    let m = suffix.unicode_len();
    let n = s.len();
    if n < m {
        return false;
    }
    let mut i: usize = 0;
    while i < m
        invariant
            0 <= i <= m == suffix@.len(),
            n == s@.len(),
            n >= m,
            forall|j: int| 0 <= j < i ==> #[trigger] eq_ignore_case(s@[n - m + j], suffix@[j]),
        decreases m - i,
    {
        let c = s[n - m + i];
        let l = suffix.get_char(i);
        let ok = c == l || ('a' <= l && l <= 'z' && (l as u32) - 32 == (c as u32));
        if !ok {
            assert(!eq_ignore_case(s@[n - m + i], suffix@[i as int]));
            return false;
        }
        assert(eq_ignore_case(s@[n - m + i], suffix@[i as int]));
        i = i + 1;
    }
    true
}

/// The content type that the bridge sends for a media file, by extension.
pub open spec fn media_content_type(name: Seq<char>) -> Seq<char> {
    if ends_with_ignore_case(name, ".mp4"@) || ends_with_ignore_case(name, ".m4v"@) {
        "video/mp4"@
    } else if ends_with_ignore_case(name, ".mkv"@) {
        "video/x-matroska"@
    } else if ends_with_ignore_case(name, ".webm"@) {
        "video/webm"@
    } else if ends_with_ignore_case(name, ".mov"@) {
        "video/quicktime"@
    } else if ends_with_ignore_case(name, ".avi"@) {
        "video/x-msvideo"@
    } else if ends_with_ignore_case(name, ".mp3"@) {
        "audio/mpeg"@
    } else if ends_with_ignore_case(name, ".wav"@) {
        "audio/wav"@
    } else if ends_with_ignore_case(name, ".flac"@) {
        "audio/flac"@
    } else if ends_with_ignore_case(name, ".ogg"@) {
        "audio/ogg"@
    } else if ends_with_ignore_case(name, ".m4a"@) {
        "audio/mp4"@
    } else if ends_with_ignore_case(name, ".aac"@) {
        "audio/aac"@
    } else if ends_with_ignore_case(name, ".opus"@) {
        "audio/opus"@
    } else {
        "application/octet-stream"@
    }
}

/// Determines the Content-Type of a media file from its extension, ignoring
/// ASCII case.
pub fn guess_media_content_type(filename: &str) -> (r: &'static str)
    ensures
        r@ == media_content_type(filename@),
{
    let s = chars_of(filename);
    if ends_with_ci(&s, ".mp4") || ends_with_ci(&s, ".m4v") {
        "video/mp4"
    } else if ends_with_ci(&s, ".mkv") {
        "video/x-matroska"
    } else if ends_with_ci(&s, ".webm") {
        "video/webm"
    } else if ends_with_ci(&s, ".mov") {
        "video/quicktime"
    } else if ends_with_ci(&s, ".avi") {
        "video/x-msvideo"
    } else if ends_with_ci(&s, ".mp3") {
        "audio/mpeg"
    } else if ends_with_ci(&s, ".wav") {
        "audio/wav"
    } else if ends_with_ci(&s, ".flac") {
        "audio/flac"
    } else if ends_with_ci(&s, ".ogg") {
        "audio/ogg"
    } else if ends_with_ci(&s, ".m4a") {
        "audio/mp4"
    } else if ends_with_ci(&s, ".aac") {
        "audio/aac"
    } else if ends_with_ci(&s, ".opus") {
        "audio/opus"
    } else {
        "application/octet-stream"
    }
}

/// Smallest jump between requested ranges that counts as a seek: one part,
/// or 1 MiB if parts are smaller.
pub open spec fn gap_threshold(chunk_size: u64) -> int {
    if chunk_size >= 1048576 { chunk_size as int } else { 1048576 }
}

/// Does a request starting at `start`, after one for `[last_start, last_end]`,
/// look like a seek? A backward jump far from the end of the file by more than
/// half its size is a probe for the index (moov) and does not count; a
/// detection within 500 ms of the last one (`debounce_elapsed` false) does not
/// count either. Half the file size is compared exactly, in integers.
pub open spec fn seek_jump(
    last_start: u64,
    last_end: u64,
    start: u64,
    file_size: i64,
    chunk_size: u64,
    debounce_elapsed: bool,
) -> bool {
    let g = gap_threshold(chunk_size);
    let backward = start < last_start && last_start - start > g;
    let forward = start > (if last_end + g <= u64::MAX { last_end + g } else { u64::MAX as int });
    let fs = file_size as u64;
    let tail = if fs >= 67108864 { fs - 67108864 } else { 0 };
    let moov_probe = backward && last_start > tail && 2 * (last_start - start) > file_size;
    (backward || forward) && !moov_probe && debounce_elapsed
}

pub fn is_seek_jump(
    last_start: u64,
    last_end: u64,
    start: u64,
    file_size: i64,
    chunk_size: u64,
    debounce_elapsed: bool,
) -> (r: bool)
    ensures
        r == seek_jump(last_start, last_end, start, file_size, chunk_size, debounce_elapsed),
{
    let g: u64 = if chunk_size >= 1048576 { chunk_size } else { 1048576 };
    let backward = start < last_start && last_start - start > g;
    let fwd_edge: u64 = if last_end <= u64::MAX - g { last_end + g } else { u64::MAX };
    let forward = start > fwd_edge;
    let fs: u64 = file_size as u64;
    let tail: u64 = if fs >= 67108864 { fs - 67108864 } else { 0 };
    let moov_probe = backward && last_start > tail && 2 * ((last_start - start) as i128) > file_size as i128;
    (backward || forward) && !moov_probe && debounce_elapsed
}

/// The last range requested for a file, and when a seek was last detected
/// on it (monotonic milliseconds).
#[derive(Debug, Clone, Copy, PartialEq, Eq, Structural)]
pub struct RangeTracker {
    pub last_start: u64,
    pub last_end: u64,
    pub last_detection_ms: u64,
}

/// The tracker after a request for `[start, end]` at `now_ms`, and whether
/// the request counts as a seek. The first request of a file never does;
/// later ones do when `seek_jump` says so, with detections at least 500 ms
/// apart.
pub open spec fn track_request(
    prev: Option<RangeTracker>,
    start: u64,
    end: u64,
    now_ms: u64,
    file_size: i64,
    chunk_size: u64,
) -> (RangeTracker, bool) {
    match prev {
        None => (RangeTracker { last_start: start, last_end: end, last_detection_ms: now_ms }, false),
        Some(t) => {
            let debounced = now_ms - t.last_detection_ms > 500;
            let detected = seek_jump(t.last_start, t.last_end, start, file_size, chunk_size, debounced);
            (
                RangeTracker {
                    last_start: start,
                    last_end: end,
                    last_detection_ms: if detected { now_ms } else { t.last_detection_ms },
                },
                detected,
            )
        },
    }
}

/// Records a range request of a file and says whether it looks like a seek.
pub fn track_range_request(
    prev: Option<RangeTracker>,
    start: u64,
    end: u64,
    now_ms: u64,
    file_size: i64,
    chunk_size: u64,
) -> (r: (RangeTracker, bool))
    ensures
        r == track_request(prev, start, end, now_ms, file_size, chunk_size),
{
    match prev {
        None => (RangeTracker { last_start: start, last_end: end, last_detection_ms: now_ms }, false),
        Some(t) => {
            let debounced = now_ms >= t.last_detection_ms && now_ms - t.last_detection_ms > 500;
            let detected = is_seek_jump(t.last_start, t.last_end, start, file_size, chunk_size, debounced);
            (
                RangeTracker {
                    last_start: start,
                    last_end: end,
                    last_detection_ms: if detected { now_ms } else { t.last_detection_ms },
                },
                detected,
            )
        },
    }
}

/// Two seeks detected on one file, one request after the other, are more
/// than 500 ms apart.
pub proof fn lemma_seek_detections_debounced(
    prev: Option<RangeTracker>,
    s1: u64,
    e1: u64,
    t1: u64,
    s2: u64,
    e2: u64,
    t2: u64,
    file_size: i64,
    chunk_size: u64,
)
    requires
        track_request(prev, s1, e1, t1, file_size, chunk_size).1,
        track_request(Some(track_request(prev, s1, e1, t1, file_size, chunk_size).0), s2, e2, t2, file_size, chunk_size).1,
    ensures
        t2 - t1 > 500,
{
}

/// The part size used to judge seeks: the size of the file's first part
/// when known and positive, else the configured chunk size.
pub fn playback_chunk_size(configured: u64, first_part_size: Option<i64>) -> (r: u64)
    ensures
        r == (match first_part_size {
            Some(s) if s > 0 => s as u64,
            _ => configured,
        }),
{
    match first_part_size {
        Some(s) => if s > 0 {
            s as u64
        } else {
            configured
        },
        None => configured,
    }
}

/// The `Content-Range` value of a partial answer: `bytes start-end/size`.
pub fn content_range(start: u64, end: u64, file_size: i64) -> (r: String)
    ensures
        r@ == "bytes "@ + decimal_digits(start as nat) + "-"@ + decimal_digits(end as nat) + "/"@ + decimal(
            file_size as int,
        ),
{
    let mut s = String::from_str("bytes ");
    s.append(u64_decimal_string(start).as_str());
    s.append("-");
    s.append(u64_decimal_string(end).as_str());
    s.append("/");
    s.append(decimal_string(file_size).as_str());
    s
}

/// Where part `part_num` (counted from 1) starts in its file, when every part
/// before it holds `chunk_bytes` bytes.
pub fn part_stream_offset(part_num: u32, chunk_bytes: u64) -> (r: u64)
    requires
        part_num >= 1,
        (part_num - 1) * chunk_bytes <= u64::MAX,
    ensures
        r == (part_num - 1) * chunk_bytes,
{
    (part_num as u64 - 1) * chunk_bytes
}

/// How the raw-file endpoint answers.
#[derive(Debug, Clone, Copy, PartialEq, Eq, Structural)]
pub enum RawAnswer {
    /// 409: the file is not ready for playback.
    NotReady,
    /// 206: the bytes `start..=end`, streamed, with `Content-Range`.
    Partial(u64, u64),
    /// 200: no body, `Content-Length` the file size, so that the player
    /// learns it may ask for ranges.
    Whole,
}

/// The answer to a raw-file request: not ready (409) when the file could
/// not be prepared; otherwise a partial answer for a `Range` header that
/// reads, else the whole-file headers.
pub fn raw_answer(ready: bool, range: Option<&str>, file_size: i64) -> (r: RawAnswer)
    ensures
        r == (if !ready {
            RawAnswer::NotReady
        } else {
            match parse_range_spec(
                match range {
                    Some(s) => Some(s@),
                    None => None,
                },
                file_size,
            ) {
                Some((s, e)) => RawAnswer::Partial(s, e),
                None => RawAnswer::Whole,
            }
        }),
{
    if !ready {
        return RawAnswer::NotReady;
    }
    match parse_range(range, file_size) {
        Some((s, e)) => RawAnswer::Partial(s, e),
        None => RawAnswer::Whole,
    }
}

/// The generation of a file's new raw stream: one past the current one
/// (none counts as 0); streams of older generations stop.
pub fn next_stream_generation(current: Option<u64>) -> (r: u64)
    requires
        current matches Some(g) ==> g < u64::MAX,
    ensures
        r == (match current {
            Some(g) => g + 1,
            None => 1,
        }),
{
    match current {
        Some(g) => g + 1,
        None => 1,
    }
}

/// Law: what counts as a seek. With `g` the larger of the part size and
/// 1 MiB: nothing counts within 500 ms of the last detection; a request
/// that jumps neither more than `g` back nor more than `g` past the last
/// range is no seek; a backward jump of more than `g` from a range that
/// started before the last 64 MiB of the file is a seek, whatever its size
/// against the file; a forward jump of more than `g` from a range that did
/// not start after the request is a seek; a backward jump of more than half
/// the file from a range in the last 64 MiB is an index probe, no seek.
pub proof fn lemma_seek_jump_cases(
    last_start: u64,
    last_end: u64,
    start: u64,
    file_size: i64,
    chunk_size: u64,
    debounce_elapsed: bool,
)
    ensures
        ({
            let g: int = if chunk_size >= 0x100000 { chunk_size as int } else { 0x100000 };
            let back = start < last_start && last_start - start > g;
            let fwd = start > last_end + g && start >= last_start;
            let r = seek_jump(last_start, last_end, start, file_size, chunk_size, debounce_elapsed);
            &&& !debounce_elapsed ==> !r
            &&& !back && start <= last_end + g ==> !r
            &&& back && file_size >= 0 && last_start + 0x4000000 <= file_size ==> r == debounce_elapsed
            &&& fwd && last_end + g < u64::MAX ==> r == debounce_elapsed
            &&& back && file_size >= 0x4000000 && last_start > file_size - 0x4000000 && 2 * (last_start - start)
                > file_size ==> !r
        }),
{
}

/// The bytes a plan sends: the sum of its slice lengths.
pub open spec fn plan_bytes(p: Seq<RangePart>) -> int
    decreases p.len(),
{
    if p.len() == 0 {
        0
    } else {
        plan_bytes(p.drop_last()) + p.last().slice_len
    }
}

/// The number of bytes of `[start, end]` before byte `limit`.
pub open spec fn bytes_before(start: u64, end: u64, limit: int) -> int {
    let top = if end + 1 <= limit { end + 1 } else { limit };
    if top > start { top - start } else { 0 }
}

proof fn lemma_plan_bytes_prefix(parts: Seq<(u32, u64)>, n: int, start: u64, end: u64)
    requires
        0 <= n <= parts.len(),
        end < u64::MAX,
    ensures
        plan_bytes(plan_of(parts, n, start, end)) == bytes_before(start, end, part_offset(parts, n)),
    decreases n,
{
    if n > 0 {
        lemma_plan_bytes_prefix(parts, n - 1, start, end);
        lemma_part_offset_mono(parts, 0, n - 1);
        let r = plan_of(parts, n - 1, start, end);
        match part_share(parts, n - 1, start, end) {
            Some(p) => {
                assert(r.push(p).drop_last() =~= r);
            },
            None => {},
        }
    }
}

proof fn lemma_plan_has_part(parts: Seq<(u32, u64)>, n: int, k: int, start: u64, end: u64)
    requires
        0 <= k < n <= parts.len(),
        start <= end,
        end < u64::MAX,
        parts[k].1 > 0,
        part_offset(parts, k) <= end,
        part_offset(parts, k) + parts[k].1 > start,
    ensures
        exists|i: int|
            0 <= i < plan_of(parts, n, start, end).len() && (#[trigger] plan_of(parts, n, start, end)[i]).part_index
                == parts[k].0 && plan_of(parts, n, start, end)[i].file_offset == part_offset(parts, k),
    decreases n,
{
    let r = plan_of(parts, n - 1, start, end);
    if k < n - 1 {
        lemma_plan_has_part(parts, n - 1, k, start, end);
        let i = choose|i: int|
            0 <= i < r.len() && (#[trigger] r[i]).part_index == parts[k].0 && r[i].file_offset == part_offset(parts, k);
        match part_share(parts, n - 1, start, end) {
            Some(p) => {
                assert(plan_of(parts, n, start, end) == r.push(p));
                assert(r.push(p)[i] == r[i]);
            },
            None => {},
        }
        assert(plan_of(parts, n, start, end)[i].part_index == parts[k].0);
    } else {
        lemma_part_offset_mono(parts, 0, k);
        assert(part_share(parts, k, start, end) is Some);
        let p = part_share(parts, k, start, end).unwrap();
        assert(plan_of(parts, n, start, end) == r.push(p));
        assert(plan_of(parts, n, start, end)[r.len() as int] == p);
        assert(p.file_offset == part_offset(parts, k));
    }
}

/// Law: a plan for `[start, end]` sends exactly the bytes of the range that
/// lie within the parts, `min(end + 1, total) - start` of them (none when
/// the range starts past the end), and every part that the range meets has
/// an entry, at the part's place in the file (a part of size zero holds no
/// byte of the range and gets none).
pub proof fn lemma_range_plan_covers(parts: Seq<(u32, u64)>, start: u64, end: u64)
    requires
        end < u64::MAX,
    ensures
        plan_bytes(plan_of(parts, parts.len() as int, start, end)) == bytes_before(
            start,
            end,
            part_offset(parts, parts.len() as int),
        ),
        start <= end ==> forall|k: int|
            #![trigger parts[k]]
            0 <= k < parts.len() && parts[k].1 > 0 && part_offset(parts, k) <= end && part_offset(parts, k)
                + parts[k].1 > start ==> exists|i: int|
                0 <= i < plan_of(parts, parts.len() as int, start, end).len() && (#[trigger] plan_of(
                    parts,
                    parts.len() as int,
                    start,
                    end,
                )[i]).part_index == parts[k].0 && plan_of(parts, parts.len() as int, start, end)[i].file_offset
                    == part_offset(parts, k),
{
    lemma_plan_bytes_prefix(parts, parts.len() as int, start, end);
    if start <= end {
        assert forall|k: int|
            #![trigger parts[k]]
            0 <= k < parts.len() && parts[k].1 > 0 && part_offset(parts, k) <= end && part_offset(parts, k)
                + parts[k].1 > start implies exists|i: int|
                0 <= i < plan_of(parts, parts.len() as int, start, end).len() && (#[trigger] plan_of(
                    parts,
                    parts.len() as int,
                    start,
                    end,
                )[i]).part_index == parts[k].0 && plan_of(parts, parts.len() as int, start, end)[i].file_offset
                    == part_offset(parts, k) by {
            lemma_plan_has_part(parts, parts.len() as int, k, start, end);
        }
    }
}

} // verus!
