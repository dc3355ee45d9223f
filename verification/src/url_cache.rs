//! The cache of signed CDN links of file parts. A link is keyed by
//! `"<file id>:<part number>"` and carries its expiry; times are whole
//! seconds since the Unix epoch.
use vstd::prelude::*;
use crate::mpv::{find_from, find_str_from};
use crate::text::{
    chars_of, decimal, decimal_digits, decimal_string, parse_signed, parse_unsigned, parse_unsigned_range, u64_decimal_string,
};

verus! {

/// A link whose expiry is more than this far ahead is used as is.
pub const HIT_BUFFER_SECS: i64 = 300;

/// A refreshed link that expires within this long after the previous one is
/// not worth switching to.
pub const ANTI_FLAP_WINDOW_SECS: i64 = 30;

/// A cached link: its key, URL and expiry.
pub struct CachedLink {
    pub key: String,
    pub url: String,
    pub expiry: i64,
}


/// The position of the entry that holds `key`'s link: the last entry with
/// `key`, as later entries replace earlier ones, the way a map filled in
/// order keeps the last value written.
pub open spec fn entry_of(cache: Seq<CachedLink>, key: Seq<char>) -> Option<int> {
    if exists|i: int| 0 <= i < cache.len() && #[trigger] cache[i].key@ == key {
        Some(
            choose|i: int|
                0 <= i < cache.len() && cache[i].key@ == key && forall|j: int|
                    i < j < cache.len() ==> #[trigger] cache[j].key@ != key,
        )
    } else {
        None
    }
}

proof fn lemma_entry_of_at(cache: Seq<CachedLink>, key: Seq<char>, i: int)
    requires
        0 <= i < cache.len(),
        cache[i].key@ == key,
        forall|j: int| i < j < cache.len() ==> #[trigger] cache[j].key@ != key,
    ensures
        entry_of(cache, key) == Some(i),
{
    let k = choose|k: int|
        0 <= k < cache.len() && cache[k].key@ == key && forall|j: int| k < j < cache.len() ==> #[trigger] cache[j].key@ != key;
    assert(cache[k].key@ == key);
    if k < i {
        assert(cache[i].key@ != key);
    }
    if i < k {
        assert(cache[k].key@ != key);
    }
}

/// Finds the entry that holds `key`'s link (the last one with `key`).
pub fn find_entry(cache: &[CachedLink], key: &str) -> (r: Option<usize>)
    ensures
        r matches Some(i) ==> i < cache@.len(),
        match r {
            Some(i) => entry_of(cache@, key@) == Some(i as int),
            None => entry_of(cache@, key@) is None,
        },
{
    let mut i: usize = cache.len();
    while i > 0
        invariant
            0 <= i <= cache@.len(),
            forall|j: int| i <= j < cache@.len() ==> #[trigger] cache@[j].key@ != key@,
        decreases i,
    {
        i = i - 1;
        if crate::text::str_eq(cache[i].key.as_str(), key) {
            proof {
                lemma_entry_of_at(cache@, key@, i as int);
            }
            return Some(i);
        }
    }
    None
}

proof fn lemma_filter_map_push<A, B>(s: Seq<A>, x: A, p: spec_fn(A) -> bool, f: spec_fn(A) -> B)
    ensures
        s.push(x).filter(p).map_values(f) == (if p(x) {
            s.filter(p).map_values(f).push(f(x))
        } else {
            s.filter(p).map_values(f)
        }),
{
    reveal(Seq::filter);
    assert(s.push(x).drop_last() =~= s);
    if p(x) {
        assert(s.filter(p).push(x).map_values(f) =~= s.filter(p).map_values(f).push(f(x)));
    }
}

/// What the cache has for a key.
#[derive(Debug, Clone, PartialEq, Eq)]
pub enum CacheLookup {
    /// A link valid for more than five more minutes.
    Hit(String, i64),
    /// A link that expires within five minutes (or has expired).
    Stale(String, i64),
    Miss,
}

/// Looks up the link of `key` at `now`.
pub fn check_cache(cache: &[CachedLink], key: &str, now: i64) -> (r: CacheLookup)
    ensures
        match entry_of(cache@, key@) {
            None => r == CacheLookup::Miss,
            Some(i) => if cache@[i].expiry > now + HIT_BUFFER_SECS {
                r matches CacheLookup::Hit(u, e) && u@ == cache@[i].url@ && e == cache@[i].expiry
            } else {
                r matches CacheLookup::Stale(u, e) && u@ == cache@[i].url@ && e == cache@[i].expiry
            },
        },
{
    match find_entry(cache, key) {
        None => CacheLookup::Miss,
        Some(i) => {
            let e = &cache[i];
            if (e.expiry as i128) > (now as i128) + 300 {
                CacheLookup::Hit(e.url.clone(), e.expiry)
            } else {
                CacheLookup::Stale(e.url.clone(), e.expiry)
            }
        },
    }
}

/// Keeps the cached link instead of a refreshed one when the previous
/// expiry is still ahead and the refreshed link would not last more than
/// 30 s longer; `None` means the refreshed link is taken.
pub fn anti_flap_filter(
    last_expiry: Option<i64>,
    new_expiry: Option<i64>,
    now: i64,
    cached: Option<(String, i64)>,
) -> (r: Option<(String, i64)>)
    ensures
        r == (match (last_expiry, new_expiry) {
            (Some(prev), Some(fresh)) => if prev > now && fresh <= prev + ANTI_FLAP_WINDOW_SECS {
                cached
            } else {
                None
            },
            _ => None,
        }),
{
    let prev = match last_expiry {
        Some(p) => p,
        None => return None,
    };
    if prev <= now {
        return None;
    }
    let fresh = match new_expiry {
        Some(f) => f,
        None => return None,
    };
    if (fresh as i128) <= (prev as i128) + 30 {
        return cached;
    }
    None
}

/// The key of a part's link: `"<file id>:<part number>"`.
pub open spec fn part_key(file_id: i64, part: u32) -> Seq<char> {
    decimal(file_id as int) + ":"@ + decimal_digits(part as nat)
}

/// Builds the key of a part's link.
pub fn part_cache_key(file_id: i64, part: u32) -> (r: String)
    ensures
        r@ == part_key(file_id, part),
{
    let mut s = decimal_string(file_id);
    s.append(":");
    s.append(u64_decimal_string(part as u64).as_str());
    s
}

/// Is the part on Discord and its link missing or expiring by `threshold`?
pub open spec fn part_expired(cache: Seq<CachedLink>, file_id: i64, part: (u32, String), threshold: i64) -> bool {
    part.1@ == "discord"@ && match entry_of(cache, part_key(file_id, part.0)) {
        None => true,
        Some(i) => cache[i].expiry <= threshold,
    }
}

pub open spec fn expired_pred(cache: Seq<CachedLink>, file_id: i64, threshold: i64) -> spec_fn((u32, String)) -> bool {
    |p: (u32, String)| part_expired(cache, file_id, p, threshold)
}

pub open spec fn part_number() -> spec_fn((u32, String)) -> u32 {
    |p: (u32, String)| p.0
}

/// The part numbers of `parts` are all different, as the keys of a map are.
pub open spec fn distinct_part_numbers(parts: Seq<(u32, String)>) -> bool {
    forall|i: int, j: int| 0 <= i < j < parts.len() ==> parts[i].0 != parts[j].0
}

/// The Discord parts of a file whose link is missing or expires by
/// `threshold`, in the given order, each listed once. Each part is
/// (number, platform), one per part number.
pub fn list_expired_parts(parts: &[(u32, String)], cache: &[CachedLink], file_id: i64, threshold: i64) -> (r: Vec<u32>)
    requires
        distinct_part_numbers(parts@),
    ensures
        r@ == parts@.filter(expired_pred(cache@, file_id, threshold)).map_values(part_number()),
        forall|a: int, b: int| 0 <= a < b < r@.len() ==> r@[a] != r@[b],
{
    let mut out: Vec<u32> = Vec::new();
    let mut i: usize = 0;
    proof {
        reveal(Seq::filter);
    }
    while i < parts.len()
        invariant
            0 <= i <= parts@.len(),
            out@ == parts@.subrange(0, i as int).filter(expired_pred(cache@, file_id, threshold)).map_values(
                part_number(),
            ),
            distinct_part_numbers(parts@),
            forall|a: int, b: int| 0 <= a < b < out@.len() ==> out@[a] != out@[b],
            forall|a: int| #![trigger out@[a]] 0 <= a < out@.len() ==> exists|j: int| #![trigger parts@[j]] 0 <= j < i && parts@[j].0 == out@[a],
        decreases parts@.len() - i,
    {
        let ghost pre = parts@.subrange(0, i as int);
        let p = &parts[i];
        assert(parts@.subrange(0, i + 1) =~= pre.push(*p));
        proof {
            lemma_filter_map_push(pre, *p, expired_pred(cache@, file_id, threshold), part_number());
            reveal_strlit("discord");
        }
        let expired = if crate::text::str_eq(p.1.as_str(), "discord") {
            let key = part_cache_key(file_id, p.0);
            match find_entry(cache, key.as_str()) {
                None => true,
                Some(k) => cache[k].expiry <= threshold,
            }
        } else {
            false
        };
        assert(expired == part_expired(cache@, file_id, *p, threshold));
        if expired {
            let ghost before = out@;
            proof {
                assert forall|a: int| 0 <= a < before.len() implies before[a] != p.0 by {
                    let j = choose|j: int| #![trigger parts@[j]] 0 <= j < i && parts@[j].0 == before[a];
                    assert(parts@[j].0 != parts@[i as int].0);
                }
            }
            out.push(p.0);
            proof {
                assert forall|a: int| #![trigger out@[a]] 0 <= a < out@.len() implies exists|j: int| #![trigger parts@[j]] 0 <= j < i + 1 && parts@[j].0 == out@[a] by {
                    if a < before.len() {
                        let j = choose|j: int| #![trigger parts@[j]] 0 <= j < i && parts@[j].0 == before[a];
                        assert(parts@[j].0 == out@[a]);
                    } else {
                        assert(parts@[i as int].0 == out@[a]);
                    }
                }
            }
        }
        i = i + 1;
    }
    assert(parts@.subrange(0, i as int) =~= parts@);
    out
}

/// The part number in a stored part's file name: the digits after the
/// first `.part`, up to the next `.` or the end.
pub open spec fn part_index_of(name: Seq<char>) -> Option<int> {
    match find_from(name, ".part"@, 0) {
        None => None,
        Some(i) => {
            let start = i + 5;
            let rest = name.subrange(start, name.len() as int);
            let end = match find_from(rest, "."@, 0) {
                Some(j) => j,
                None => rest.len() as int,
            };
            parse_unsigned(rest.subrange(0, end), u32::MAX as int)
        },
    }
}


/// Reads the part number from a stored part's file name.
pub fn parse_part_index(filename: &str) -> (r: Option<u32>)
    ensures
        r == (match part_index_of(filename@) {
            Some(v) => Some(v as u32),
            None => None::<u32>,
        }),
{
    proof {
        reveal_strlit(".part");
        reveal_strlit(".");
        crate::mpv::lemma_find_from_bounds(filename@, ".part"@, 0);
    }
    let n = filename.unicode_len();
    match find_str_from(filename, ".part", 0) {
        None => None,
        Some(i) => {
            let start = i + 5;
            let rest = filename.substring_char(start, n);
            proof {
                crate::mpv::lemma_find_from_bounds(rest@, "."@, 0);
            }
            let end = match find_str_from(rest, ".", 0) {
                Some(j) => j,
                None => rest.unicode_len(),
            };
            let c = chars_of(rest);
            proof {
                crate::text::lemma_parse_unsigned_bounds(rest@.subrange(0, end as int), u32::MAX as int);
            }
            match parse_unsigned_range(&c, 0, end, 4294967295) {
                Some(v) => Some(v as u32),
                None => None,
            }
        },
    }
}

/// Does `key` start with `"<file id>:"`?
pub open spec fn key_of_file(key: Seq<char>, file_id: i64) -> bool {
    let p = decimal(file_id as int) + ":"@;
    p.len() <= key.len() && key.subrange(0, p.len() as int) == p
}

pub open spec fn snapshot_pred(file_id: i64, now: i64) -> spec_fn(CachedLink) -> bool {
    |c: CachedLink| key_of_file(c.key@, file_id) && c.expiry > now
}

pub open spec fn snapshot_row() -> spec_fn(CachedLink) -> (Seq<char>, Seq<char>, Seq<char>) {
    |c: CachedLink| (c.key@, c.url@, decimal(c.expiry as int))
}

pub open spec fn row_views(rows: Seq<(String, String, String)>) -> Seq<(Seq<char>, Seq<char>, Seq<char>)> {
    rows.map_values(|e: (String, String, String)| (e.0@, e.1@, e.2@))
}

/// The links of a file that are still valid at `now`, in cache order, as
/// written to disk: key, URL and expiry in decimal.
pub fn build_snapshot(cache: &[CachedLink], file_id: i64, now: i64) -> (r: Vec<(String, String, String)>)
    ensures
        row_views(r@) == cache@.filter(snapshot_pred(file_id, now)).map_values(snapshot_row()),
{
    let mut prefix = decimal_string(file_id);
    prefix.append(":");
    let mut out: Vec<(String, String, String)> = Vec::new();
    let mut i: usize = 0;
    proof {
        reveal(Seq::filter);
    }
    while i < cache.len()
        invariant
            0 <= i <= cache@.len(),
            prefix@ == decimal(file_id as int) + ":"@,
            row_views(out@) == cache@.subrange(0, i as int).filter(snapshot_pred(file_id, now)).map_values(
                snapshot_row(),
            ),
        decreases cache@.len() - i,
    {
        let ghost pre = cache@.subrange(0, i as int);
        let c = &cache[i];
        assert(cache@.subrange(0, i + 1) =~= pre.push(*c));
        proof {
            lemma_filter_map_push(pre, *c, snapshot_pred(file_id, now), snapshot_row());
        }
        let keep = crate::text::starts_with(c.key.as_str(), prefix.as_str()) && c.expiry > now;
        if keep {
            let ghost before = out@;
            out.push((c.key.clone(), c.url.clone(), decimal_string(c.expiry)));
            assert(row_views(out@) =~= row_views(before).push((c.key@, c.url@, decimal(c.expiry as int))));
        }
        i = i + 1;
    }
    assert(cache@.subrange(0, i as int) =~= cache@);
    out
}

/// The expiry written on disk, read as `i64` (0 when it does not parse).
pub open spec fn stored_expiry(e: Seq<char>) -> int {
    match parse_signed(e, i64::MAX as int) {
        Some(v) => v,
        None => 0,
    }
}

/// Whether `secs` seconds from the Unix epoch is a time chrono represents:
/// its dates run from January 1, 262144 BCE to December 31, 262142 CE, so
/// the seconds run from that first day's midnight to the last day's
/// 23:59:59 UTC.
pub open spec fn chrono_timestamp_ok(secs: i64) -> bool {
    -8_334_601_228_800 <= secs <= 8_210_266_876_799
}

/// Asks `chrono::DateTime::from_timestamp(secs, 0)` whether `secs` is a time
/// it can represent; the contract says it answers yes exactly on chrono's
/// range of dates (`NaiveDate::MIN` to `NaiveDate::MAX`, whole days).
#[verifier::external_body]
fn timestamp_representable(secs: i64) -> (r: bool)
    ensures
        r == chrono_timestamp_ok(secs),
{
    chrono::DateTime::from_timestamp(secs, 0).is_some()
}

/// A row read from disk is restored when its expiry reads as `i64`, lies
/// after `now` and is a time chrono can represent.
pub open spec fn restorable(expiry: Seq<char>, now: i64) -> bool {
    match parse_signed(expiry, i64::MAX as int) {
        Some(v) => v > now && chrono_timestamp_ok(v as i64),
        None => false,
    }
}

pub open spec fn restore_pred(now: i64) -> spec_fn((String, String, String)) -> bool {
    |e: (String, String, String)| restorable(e.2@, now)
}

pub open spec fn restored_row() -> spec_fn((String, String, String)) -> (Seq<char>, Seq<char>, int) {
    |e: (String, String, String)| (e.0@, e.1@, stored_expiry(e.2@))
}

pub open spec fn link_views(links: Seq<CachedLink>) -> Seq<(Seq<char>, Seq<char>, int)> {
    links.map_values(|c: CachedLink| (c.key@, c.url@, c.expiry as int))
}

/// The links read back from disk (key, URL, expiry) whose expiry reads, is
/// still ahead at `now` and is a time chrono can represent, in file order.
pub fn restore_entries(entries: &[(String, String, String)], now: i64) -> (r: Vec<CachedLink>)
    ensures
        link_views(r@) == entries@.filter(restore_pred(now)).map_values(restored_row()),
{
    let mut out: Vec<CachedLink> = Vec::new();
    let mut i: usize = 0;
    proof {
        reveal(Seq::filter);
    }
    while i < entries.len()
        invariant
            0 <= i <= entries@.len(),
            link_views(out@) == entries@.subrange(0, i as int).filter(restore_pred(now)).map_values(restored_row()),
        decreases entries@.len() - i,
    {
        let ghost pre = entries@.subrange(0, i as int);
        let e = &entries[i];
        assert(entries@.subrange(0, i + 1) =~= pre.push(*e));
        proof {
            lemma_filter_map_push(pre, *e, restore_pred(now), restored_row());
            crate::text::lemma_parse_signed_bounds(e.2@, i64::MAX as int);
        }
        if let Some(exp) = crate::text::parse_i64(e.2.as_str()) {
            if exp > now && timestamp_representable(exp) {
                let ghost before = out@;
                out.push(CachedLink { key: e.0.clone(), url: e.1.clone(), expiry: exp });
                assert(link_views(out@) =~= link_views(before).push((e.0@, e.1@, exp as int)));
            }
        }
        i = i + 1;
    }
    assert(entries@.subrange(0, i as int) =~= entries@);
    out
}

} // verus!
