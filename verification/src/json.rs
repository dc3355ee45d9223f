//! JSON stored by the player: the audio tracks of a video (a list of file
//! ids) and the on-disk snapshot of a file's CDN links (rows of three
//! strings). Reading and writing JSON is `serde_json`'s work.
use vstd::prelude::*;
use crate::text::decimal;
use crate::url_cache::{build_snapshot, restore_entries, row_views, CachedLink};

verus! {

/// What `serde_json::from_str::<Vec<i64>>` makes of `text`: the list, or
/// `None` when `text` is not a JSON array of `i64`s.
pub uninterp spec fn json_i64_list(text: Seq<char>) -> Option<Seq<i64>>;

/// What `serde_json::from_str::<Vec<(String, String, String)>>` makes of
/// `text`: the rows, or `None` when `text` is not a JSON array of
/// three-string arrays.
pub uninterp spec fn json_string_rows(text: Seq<char>) -> Option<Seq<(Seq<char>, Seq<char>, Seq<char>)>>;

/// A lowercase hexadecimal digit.
pub open spec fn hex_digit(n: int) -> char {
    if n < 10 {
        (48 + n) as char
    } else {
        (87 + n) as char
    }
}

/// How `serde_json` writes a character inside a string: `"` and `\` behind
/// a backslash, the control characters with a short escape (`\b`, `\t`,
/// `\n`, `\f`, `\r`) as such, the other ones below U+0020 as `\u00XX`,
/// everything else as it is.
pub open spec fn escaped_char(c: char) -> Seq<char> {
    if c == '"' {
        seq!['\\', '"']
    } else if c == '\\' {
        seq!['\\', '\\']
    } else if c == '\u{8}' {
        seq!['\\', 'b']
    } else if c == '\t' {
        seq!['\\', 't']
    } else if c == '\n' {
        seq!['\\', 'n']
    } else if c == '\u{c}' {
        seq!['\\', 'f']
    } else if c == '\r' {
        seq!['\\', 'r']
    } else if (c as int) < 32 {
        seq!['\\', 'u', '0', '0', hex_digit((c as int) / 16), hex_digit((c as int) % 16)]
    } else {
        seq![c]
    }
}

/// The characters of `s`, each escaped.
pub open spec fn escaped(s: Seq<char>) -> Seq<char>
    decreases s.len(),
{
    if s.len() == 0 {
        seq![]
    } else {
        escaped(s.drop_last()) + escaped_char(s.last())
    }
}

/// A JSON string: the escaped text in double quotes.
pub open spec fn json_str(s: Seq<char>) -> Seq<char> {
    seq!['"'] + escaped(s) + seq!['"']
}

/// A row of three strings as a compact JSON array.
pub open spec fn json_row(r: (Seq<char>, Seq<char>, Seq<char>)) -> Seq<char> {
    seq!['['] + json_str(r.0) + seq![','] + json_str(r.1) + seq![','] + json_str(r.2) + seq![']']
}

/// The rows, each as a JSON array, separated by `,`.
pub open spec fn joined_rows(rows: Seq<(Seq<char>, Seq<char>, Seq<char>)>) -> Seq<char>
    decreases rows.len(),
{
    if rows.len() == 0 {
        seq![]
    } else if rows.len() == 1 {
        json_row(rows[0])
    } else {
        joined_rows(rows.drop_last()) + seq![','] + json_row(rows.last())
    }
}

/// The compact JSON of rows of three strings: `[`, the rows, `]`.
pub open spec fn json_rows(rows: Seq<(Seq<char>, Seq<char>, Seq<char>)>) -> Seq<char> {
    seq!['['] + joined_rows(rows) + seq![']']
}

/// The compact JSON of a list of integers: `[`, the decimal numerals
/// separated by `,`, `]`.
pub open spec fn json_int_list(ids: Seq<i64>) -> Seq<char> {
    "["@ + joined_numerals(ids) + "]"@
}

pub open spec fn joined_numerals(ids: Seq<i64>) -> Seq<char>
    decreases ids.len(),
{
    if ids.len() == 0 {
        seq![]
    } else if ids.len() == 1 {
        decimal(ids[0] as int)
    } else {
        joined_numerals(ids.drop_last()) + ","@ + decimal(ids.last() as int)
    }
}

/// Reads a JSON list of file ids with `serde_json::from_str::<Vec<i64>>`;
/// the contract says the result is the named parse of the text.
#[verifier::external_body]
fn parse_i64_list(text: &str) -> (r: Option<Vec<i64>>)
    ensures
        match r {
            Some(v) => json_i64_list(text@) == Some(v@),
            None => json_i64_list(text@) is None,
        },
{
    serde_json::from_str::<Vec<i64>>(text).ok()
}

/// Writes a list of file ids with `serde_json::to_string`; the contract says
/// that it succeeds and gives the compact JSON list (`[1,-2,3]`): `serde_json`
/// writes integers with `itoa` between `[`, `,` and `]`, and writing integers
/// into its in-memory buffer has no way to fail.
#[verifier::external_body]
fn i64_list_to_json(ids: &Vec<i64>) -> (r: Option<String>)
    ensures
        r is Some,
        r.unwrap()@ == json_int_list(ids@),
{
    serde_json::to_string(ids).ok()
}

/// Reads link rows with `serde_json::from_str`; the contract says the
/// result is the named parse of the text.
#[verifier::external_body]
fn parse_string_rows(text: &str) -> (r: Option<Vec<(String, String, String)>>)
    ensures
        match r {
            Some(v) => json_string_rows(text@) == Some(row_views(v@)),
            None => json_string_rows(text@) is None,
        },
{
    serde_json::from_str::<Vec<(String, String, String)>>(text).ok()
}

/// Writes link rows with `serde_json::to_string`; the contract says that it
/// succeeds and gives the compact JSON of the rows: each row an array of
/// three strings, escaped as `serde_json`'s `format_escaped_str` does, arrays
/// between `[`, `,` and `]`. Writing strings into its in-memory buffer has no
/// way to fail.
#[verifier::external_body]
fn string_rows_to_json(rows: &Vec<(String, String, String)>) -> (r: Option<String>)
    ensures
        r is Some,
        r.unwrap()@ == json_rows(row_views(rows@)),
{
    serde_json::to_string(rows).ok()
}

/// The audio track ids stored with a video: its JSON list, or none when
/// absent or unreadable.
pub open spec fn stored_ids(audio_json: Option<Seq<char>>) -> Seq<i64> {
    match audio_json {
        Some(t) => match json_i64_list(t) {
            Some(v) => v,
            None => Seq::empty(),
        },
        None => Seq::empty(),
    }
}

/// Reads the audio track ids stored with a video.
pub fn stored_audio_ids(audio_json: Option<&str>) -> (r: Vec<i64>)
    ensures
        r@ == stored_ids(
            match audio_json {
                Some(t) => Some(t@),
                None => None,
            },
        ),
{
    match audio_json {
        Some(t) => match parse_i64_list(t) {
            Some(v) => v,
            None => Vec::new(),
        },
        None => Vec::new(),
    }
}

/// Writes a list of audio track ids as compact JSON.
pub fn audio_ids_json(ids: &Vec<i64>) -> (r: String)
    ensures
        r@ == json_int_list(ids@),
{
    match i64_list_to_json(ids) {
        Some(s) => s,
        None => String::from_str("[]"),
    }
}

/// What the player stores when the selected external audio track changes:
/// for a track id above zero, the video's track list with it added and it
/// as the default; otherwise the stored list unchanged (`[]` when absent)
/// and no default.
pub fn selected_audio_update(audio_json: Option<&str>, audio_file_id: i64) -> (r: (String, Option<i64>))
    ensures
        audio_file_id > 0 ==> r.1 == Some(audio_file_id) && ({
            let ids = stored_ids(
                match audio_json {
                    Some(t) => Some(t@),
                    None => None,
                },
            );
            let updated = if ids.contains(audio_file_id) {
                ids
            } else {
                ids.push(audio_file_id)
            };
            r.0@ == json_int_list(updated)
        }),
        audio_file_id <= 0 ==> r.1 is None && r.0@ == (match audio_json {
            Some(t) => t@,
            None => "[]"@,
        }),
{
    if audio_file_id > 0 {
        let ids = stored_audio_ids(audio_json);
        let updated = crate::mpv::add_audio_id(ids, audio_file_id);
        (audio_ids_json(&updated), Some(audio_file_id))
    } else {
        let raw = match audio_json {
            Some(t) => String::from_str(t),
            None => String::from_str("[]"),
        };
        (raw, None)
    }
}

/// The external audio tracks to load with a video: its stored list, if it
/// reads, then its default track; see `audio_track_plan`.
pub fn pending_audio_plan(audio_json: Option<&str>, default_audio: Option<i64>) -> (r: Vec<(i64, bool)>)
    ensures
        r@ == crate::mpv::audio_plan(
            stored_ids(
                match audio_json {
                    Some(t) => Some(t@),
                    None => None,
                },
            ),
            default_audio,
        ),
{
    let ids = match audio_json {
        Some(t) => parse_i64_list(t),
        None => None,
    };
    crate::mpv::audio_track_plan(ids, default_audio)
}

/// The audio tracks of a video after an imported track is attached: the
/// stored list with the new track appended.
pub fn imported_audio_ids(existing_json: Option<&str>, audio_id: i64) -> (r: Vec<i64>)
    ensures
        r@ == stored_ids(
            match existing_json {
                Some(t) => Some(t@),
                None => None,
            },
        ).push(audio_id),
{
    let mut ids = stored_audio_ids(existing_json);
    ids.push(audio_id);
    ids
}

/// The links of a file read back from its snapshot on disk: the rows that
/// `restorable` keeps at `now`, none when the text does not read.
pub fn restore_disk_cache(content: &str, now: i64) -> (r: Vec<CachedLink>)
    ensures
        crate::url_cache::link_views(r@) == (match json_string_rows(content@) {
            Some(rows) => rows.filter(|e: (Seq<char>, Seq<char>, Seq<char>)| crate::url_cache::restorable(e.2, now)).map_values(
                |e: (Seq<char>, Seq<char>, Seq<char>)| (e.0, e.1, crate::url_cache::stored_expiry(e.2)),
            ),
            None => Seq::empty(),
        }),
{
    match parse_string_rows(content) {
        Some(rows) => {
            let r = restore_entries(rows.as_slice(), now);
            proof {
                lemma_restore_views(rows@, now);
            }
            r
        },
        None => Vec::new(),
    }
}

proof fn lemma_restore_views(rows: Seq<(String, String, String)>, now: i64)
    ensures
        rows.filter(crate::url_cache::restore_pred(now)).map_values(crate::url_cache::restored_row()) == row_views(
            rows,
        ).filter(|e: (Seq<char>, Seq<char>, Seq<char>)| crate::url_cache::restorable(e.2, now)).map_values(
            |e: (Seq<char>, Seq<char>, Seq<char>)| (e.0, e.1, crate::url_cache::stored_expiry(e.2)),
        ),
    decreases rows.len(),
{
    reveal(Seq::filter);
    if rows.len() > 0 {
        let p = rows.drop_last();
        lemma_restore_views(p, now);
        assert(row_views(rows).drop_last() =~= row_views(p));
        let f1 = p.filter(crate::url_cache::restore_pred(now));
        let f2 = row_views(p).filter(|e: (Seq<char>, Seq<char>, Seq<char>)| crate::url_cache::restorable(e.2, now));
        let x = rows.last();
        if crate::url_cache::restorable(x.2@, now) {
            assert(f1.push(x).map_values(crate::url_cache::restored_row()) =~= f1.map_values(
                crate::url_cache::restored_row(),
            ).push((x.0@, x.1@, crate::url_cache::stored_expiry(x.2@))));
            assert(f2.push((x.0@, x.1@, x.2@)).map_values(
                |e: (Seq<char>, Seq<char>, Seq<char>)| (e.0, e.1, crate::url_cache::stored_expiry(e.2)),
            ) =~= f2.map_values(
                |e: (Seq<char>, Seq<char>, Seq<char>)| (e.0, e.1, crate::url_cache::stored_expiry(e.2)),
            ).push((x.0@, x.1@, crate::url_cache::stored_expiry(x.2@))));
        }
    } else {
        assert(row_views(rows) =~= Seq::<(Seq<char>, Seq<char>, Seq<char>)>::empty());
    }
}

/// The snapshot of a file's valid links as written to disk, or `None` when
/// there is nothing to write (no valid link).
pub fn snapshot_json(cache: &[CachedLink], file_id: i64, now: i64) -> (r: Option<String>)
    ensures
        ({
            let rows = cache@.filter(crate::url_cache::snapshot_pred(file_id, now)).map_values(
                crate::url_cache::snapshot_row(),
            );
            &&& rows.len() == 0 ==> r is None
            &&& rows.len() > 0 ==> (r matches Some(s) && s@ == json_rows(rows))
        }),
{
    let rows = build_snapshot(cache, file_id, now);
    if rows.len() == 0 {
        return None;
    }
    string_rows_to_json(&rows)
}

} // verus!
