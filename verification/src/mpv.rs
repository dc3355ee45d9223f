//! Decisions of the native (mpv) player sessions that do not depend on mpv
//! itself: session kinds, the event loop's reactions, external audio tracks,
//! and the strings handed to mpv.
use vstd::prelude::*;
use crate::text::{has_prefix, parse_i64, parse_signed, trim_end};

verus! {

/// The two session slots: one player window, one headless audio player.
#[derive(Debug, Clone, Copy, PartialEq, Eq, Structural)]
pub enum MpvSessionType {
    Video,
    Audio,
}

/// A request without a session kind opens a video session.
pub fn session_type_or_default(t: Option<MpvSessionType>) -> (r: MpvSessionType)
    ensures
        r == (match t {
            Some(x) => x,
            None => MpvSessionType::Video,
        }),
{
    match t {
        Some(x) => x,
        None => MpvSessionType::Video,
    }
}

pub open spec fn window_label_spec(t: MpvSessionType) -> Seq<char> {
    match t {
        MpvSessionType::Audio => "audio-headless"@,
        MpvSessionType::Video => "native-mpv"@,
    }
}

/// The label under which a session counts as an active playback window.
pub fn session_window_label(t: MpvSessionType) -> (r: &'static str)
    ensures
        r@ == window_label_spec(t),
{
    match t {
        MpvSessionType::Audio => "audio-headless",
        MpvSessionType::Video => "native-mpv",
    }
}

/// The cached bytes of a closed file are released unless the slot's active
/// session still plays that file.
pub fn should_release_file_cache(active_file_id: Option<i64>, closing_file_id: i64) -> (r: bool)
    ensures
        r == !(active_file_id == Some(closing_file_id)),
{
    match active_file_id {
        Some(current) => current != closing_file_id,
        None => true,
    }
}

/// The message when mpv cannot be loaded.
pub fn native_player_runtime_error() -> (r: String)
    ensures
        r@ == "Native player runtime (mpv) is not ready."@,
{
    String::from_str("Native player runtime (mpv) is not ready.")
}

/// An mpv failure as reported: the context, `: `, then the error as
/// debug-printed.
pub fn format_mpv_error(context: &str, err_debug: &str) -> (r: String)
    ensures
        r@ == context@ + ": "@ + err_debug@,
{
    let mut s = String::from_str(context);
    s.append(": ");
    s.append(err_debug);
    s
}

/// `path` with every `\` turned into `/`, as mpv's script option wants it.
pub open spec fn slashed(path: Seq<char>) -> Seq<char> {
    path.map_values(|c: char| if c == '\\' { '/' } else { c })
}

/// Writes a script path for mpv, with forward slashes.
pub fn format_mpv_script_path(path: &str) -> (r: String)
    ensures
        r@ == slashed(path@),
{
    let n = path.unicode_len();
    let mut s = String::new();
    let mut i: usize = 0;
    let mut from: usize = 0;
    while i < n
        invariant
            0 <= from <= i <= n == path@.len(),
            forall|k: int| from <= k < i ==> path@[k] != '\\',
            s@ + path@.subrange(from as int, i as int) == slashed(path@.subrange(0, i as int)),
        decreases n - i,
    {
        let c = path.get_char(i);
        proof {
            reveal_strlit("/");
        }
        let ghost pre = s@ + path@.subrange(from as int, i as int);
        assert(slashed(path@.subrange(0, i + 1)) =~= slashed(path@.subrange(0, i as int)).push(
            if c == '\\' { '/' } else { c },
        ));
        if c == '\\' {
            s.append(path.substring_char(from, i));
            s.append("/");
            from = i + 1;
            assert(s@ + path@.subrange(from as int, i + 1) =~= pre.push('/'));
        } else {
            assert(path@.subrange(from as int, i + 1) =~= path@.subrange(from as int, i as int).push(c));
        }
        i = i + 1;
    }
    s.append(path.substring_char(from, n));
    assert(path@.subrange(0, n as int) =~= path@);
    s
}

/// Does `pat` occur in `s` at `i`?
pub open spec fn occurs_at(s: Seq<char>, pat: Seq<char>, i: int) -> bool {
    0 <= i && i + pat.len() <= s.len() && s.subrange(i, i + pat.len()) == pat
}

/// The first occurrence of `pat` in `s` at or after `from`.
pub open spec fn find_from(s: Seq<char>, pat: Seq<char>, from: int) -> Option<int>
    decreases s.len() + 1 - from,
{
    if from < 0 || from + pat.len() > s.len() {
        None
    } else if occurs_at(s, pat, from) {
        Some(from)
    } else {
        find_from(s, pat, from + 1)
    }
}

fn occurs_here(s: &str, pat: &str, i: usize) -> (r: bool)
    requires
        i <= s@.len(),
    ensures
        r == occurs_at(s@, pat@, i as int),
{
    let n = s.unicode_len();
    let m = pat.unicode_len();
    if m > n - i {
        return false;
    }
    let mut k: usize = 0;
    while k < m
        invariant
            0 <= k <= m,
            i + m <= n,
            n == s@.len(),
            m == pat@.len(),
            forall|j: int| 0 <= j < k ==> s@[i + j] == pat@[j],
        decreases m - k,
    {
        if s.get_char(i + k) != pat.get_char(k) {
            assert(s@.subrange(i as int, i + m)[k as int] != pat@[k as int]);
            return false;
        }
        k = k + 1;
    }
    assert(s@.subrange(i as int, i + m) =~= pat@);
    true
}

/// Finds the first occurrence of `pat` in `s` at or after `from`.
pub fn find_str_from(s: &str, pat: &str, from: usize) -> (r: Option<usize>)
    requires
        from <= s@.len(),
    ensures
        match r {
            Some(i) => find_from(s@, pat@, from as int) == Some(i as int),
            None => find_from(s@, pat@, from as int) is None,
        },
{
    let n = s.unicode_len();
    let m = pat.unicode_len();
    if m > n || from > n - m {
        return None;
    }
    let last = n - m;
    let mut i: usize = from;
    while i <= last
        invariant
            from <= i <= last,
            last == n - m,
            n == s@.len(),
            m == pat@.len(),
            find_from(s@, pat@, from as int) == find_from(s@, pat@, i as int),
        decreases last - i,
    {
        if occurs_here(s, pat, i) {
            return Some(i);
        }
        if i == last {
            return None;
        }
        i = i + 1;
    }
    None
}

/// The text between the first `/raw/` of `url` and the next one (or the
/// end), as `split("/raw/").nth(1)` gives it.
pub open spec fn raw_segment(url: Seq<char>) -> Option<Seq<char>> {
    match find_from(url, "/raw/"@, 0) {
        None => None,
        Some(i) => {
            let start = i + 5;
            match find_from(url, "/raw/"@, start) {
                Some(j) => Some(url.subrange(start, j)),
                None => Some(url.subrange(start, url.len() as int)),
            }
        },
    }
}

/// The file id in the URL of an external audio track (`.../raw/<id>`), or
/// -1 when there is none.
pub open spec fn audio_id_from_url(url: Seq<char>) -> int {
    match raw_segment(url) {
        Some(seg) => match parse_signed(trim_end(seg), i64::MAX as int) {
            Some(v) => v,
            None => -1,
        },
        None => -1,
    }
}

pub proof fn lemma_find_from_bounds(s: Seq<char>, pat: Seq<char>, from: int)
    ensures
        find_from(s, pat, from) matches Some(i) ==> from <= i && i + pat.len() <= s.len() && occurs_at(s, pat, i),
    decreases s.len() + 1 - from,
{
    if !(from < 0 || from + pat.len() > s.len()) && !occurs_at(s, pat, from) {
        lemma_find_from_bounds(s, pat, from + 1);
    }
}

/// Reads which audio file the player selected from the track's URL.
pub fn audio_file_id_from_url(url: &str) -> (r: i64)
    ensures
        r == audio_id_from_url(url@),
{
    proof {
        reveal_strlit("/raw/");
        lemma_find_from_bounds(url@, "/raw/"@, 0);
    }
    let n = url.unicode_len();
    match find_str_from(url, "/raw/", 0) {
        None => -1,
        Some(i) => {
            let start = i + 5;
            proof {
                lemma_find_from_bounds(url@, "/raw/"@, start as int);
            }
            let end = match find_str_from(url, "/raw/", start) {
                Some(j) => j,
                None => n,
            };
            let seg = url.substring_char(start, end);
            let trimmed = crate::text::trim_end_str(seg);
            proof {
                crate::text::lemma_parse_signed_bounds(trim_end(seg@), i64::MAX as int);
            }
            match parse_i64(trimmed) {
                Some(v) => v,
                None => -1,
            }
        },
    }
}

/// Which attachment picker the player's UI asked for.
#[derive(Debug, Clone, Copy, PartialEq, Eq, Structural)]
pub enum AttachmentKind {
    Subtitle,
    Audio,
}


/// The picker that a `user-data/picker` value asks for: one starting with
/// `subtitle`, or else one starting with `audio`.
pub fn picker_request(value: &str) -> (r: Option<AttachmentKind>)
    ensures
        r == (if has_prefix(value@, "subtitle"@) {
            Some(AttachmentKind::Subtitle)
        } else if has_prefix(value@, "audio"@) {
            Some(AttachmentKind::Audio)
        } else {
            None
        }),
{
    if crate::text::starts_with(value, "subtitle") {
        Some(AttachmentKind::Subtitle)
    } else if crate::text::starts_with(value, "audio") {
        Some(AttachmentKind::Audio)
    } else {
        None
    }
}

/// The external audio tracks to add when a video opens: each listed track,
/// selected when it is the default one, then the default track if it was
/// not listed. Each entry is `(file id, selected)`.
pub open spec fn audio_plan(ids: Seq<i64>, default_audio: Option<i64>) -> Seq<(i64, bool)> {
    let listed = ids.map_values(|id: i64| (id, default_audio == Some(id)));
    match default_audio {
        Some(d) => if ids.contains(d) {
            listed
        } else {
            listed.push((d, true))
        },
        None => listed,
    }
}

/// Plans the external audio tracks of a video from its stored track ids
/// (`None` when they could not be read) and its default track.
pub fn audio_track_plan(audio_ids: Option<Vec<i64>>, default_audio: Option<i64>) -> (r: Vec<(i64, bool)>)
    ensures
        r@ == audio_plan(
            match audio_ids {
                Some(v) => v@,
                None => Seq::<i64>::empty(),
            },
            default_audio,
        ),
{
    let ids: Vec<i64> = match audio_ids {
        Some(v) => v,
        None => Vec::new(),
    };
    let mut out: Vec<(i64, bool)> = Vec::new();
    let mut seen_default = false;
    let mut i: usize = 0;
    while i < ids.len()
        invariant
            0 <= i <= ids@.len(),
            out@ == ids@.subrange(0, i as int).map_values(|id: i64| (id, default_audio == Some(id))),
            seen_default == (default_audio matches Some(d) && ids@.subrange(0, i as int).contains(d)),
        decreases ids@.len() - i,
    {
        let id = ids[i];
        let selected = match default_audio {
            Some(d) => d == id,
            None => false,
        };
        out.push((id, selected));
        proof {
            let pre = ids@.subrange(0, i as int);
            let nxt = ids@.subrange(0, i + 1);
            assert(nxt =~= pre.push(id));
            assert(nxt.map_values(|id: i64| (id, default_audio == Some(id))) =~= pre.map_values(
                |id: i64| (id, default_audio == Some(id)),
            ).push((id, default_audio == Some(id))));
            if let Some(d) = default_audio {
                if pre.contains(d) {
                    let k = choose|k: int| 0 <= k < pre.len() && pre[k] == d;
                    assert(nxt[k] == d);
                }
                if nxt.contains(d) && !pre.contains(d) {
                    let k = choose|k: int| 0 <= k < nxt.len() && nxt[k] == d;
                    if k < i {
                        assert(pre[k] == d);
                    }
                }
                if id == d {
                    assert(nxt[i as int] == d);
                }
            }
        }
        if selected {
            seen_default = true;
        }
        i = i + 1;
    }
    assert(ids@.subrange(0, i as int) =~= ids@);
    if let Some(d) = default_audio {
        if !seen_default {
            out.push((d, true));
        }
    }
    out
}

/// The audio tracks of a video after `id` is attached: added at the end
/// unless it is already there.
pub fn add_audio_id(existing: Vec<i64>, id: i64) -> (r: Vec<i64>)
    ensures
        r@ == (if existing@.contains(id) {
            existing@
        } else {
            existing@.push(id)
        }),
{
    let mut ids = existing;
    let mut i: usize = 0;
    while i < ids.len()
        invariant
            0 <= i <= ids@.len(),
            ids@ == existing@,
            forall|k: int| 0 <= k < i ==> ids@[k] != id,
        decreases ids@.len() - i,
    {
        if ids[i] == id {
            assert(existing@[i as int] == id);
            assert(existing@.contains(id));
            return ids;
        }
        i = i + 1;
    }
    ids.push(id);
    ids
}

/// The hardware decoder and whether a Direct3D 11 adapter is named: a named
/// adapter (anything but `Auto`) selects `d3d11va` on it, else `auto`.
pub fn hwdec_for_adapter(adapter: &str) -> (r: (&'static str, bool))
    ensures
        r.1 == (adapter@ != "Auto"@),
        r.0@ == (if r.1 {
            "d3d11va"@
        } else {
            "auto"@
        }),
{
    let named = !crate::text::str_eq(adapter, "Auto");
    if named {
        ("d3d11va", true)
    } else {
        ("auto", false)
    }
}

/// How a session's event loop sees mpv's events.
#[derive(Debug, Clone, PartialEq, Eq)]
pub enum MpvEvent {
    /// Playback reached the end of the file.
    EndOfFile,
    /// Playback ended with an error.
    EndFileError,
    /// Playback ended for another reason (stopped, quit, redirected).
    EndFileOther,
    Shutdown,
    /// The player's UI asked for an attachment picker.
    PickerRequested(String),
    /// The selected audio track changed.
    AudioTrackChanged,
    /// The duration became known; `positive` when it is above zero.
    DurationKnown { positive: bool },
    Other,
}

/// What the event loop must do after an event.
#[derive(Debug, Clone, Copy, PartialEq, Eq, Structural)]
pub enum EventAction {
    Nothing,
    OpenPicker(AttachmentKind),
    /// Read which external audio track is selected.
    ReadAudioSelection,
    /// Add the deferred external audio tracks (once).
    LoadPendingAudioTracks,
}

/// The flags the event loop keeps for a session.
#[derive(Debug, Clone, Copy, PartialEq, Eq, Structural)]
pub struct SessionEventState {
    pub alive: bool,
    pub reached_eof: bool,
    pub audio_tracks_loaded: bool,
    /// Whether this session watches the player's UI properties (video
    /// sessions do).
    pub observes_ui: bool,
}

pub open spec fn picker_of(value: Seq<char>) -> EventAction {
    if has_prefix(value, "subtitle"@) {
        EventAction::OpenPicker(AttachmentKind::Subtitle)
    } else if has_prefix(value, "audio"@) {
        EventAction::OpenPicker(AttachmentKind::Audio)
    } else {
        EventAction::Nothing
    }
}

/// The reaction to one event: the new flags, the action, and whether the
/// loop stops reading events.
pub open spec fn event_step(s: SessionEventState, e: MpvEvent) -> (SessionEventState, EventAction, bool) {
    match e {
        MpvEvent::EndOfFile => (SessionEventState { reached_eof: true, ..s }, EventAction::Nothing, false),
        MpvEvent::EndFileError | MpvEvent::EndFileOther | MpvEvent::Shutdown => (
            SessionEventState { alive: false, ..s },
            EventAction::Nothing,
            true,
        ),
        MpvEvent::PickerRequested(v) => if s.observes_ui {
            (s, picker_of(v@), false)
        } else {
            (s, EventAction::Nothing, false)
        },
        MpvEvent::AudioTrackChanged => if s.observes_ui {
            (s, EventAction::ReadAudioSelection, false)
        } else {
            (s, EventAction::Nothing, false)
        },
        MpvEvent::DurationKnown { positive } => if s.observes_ui && positive && !s.audio_tracks_loaded {
            (SessionEventState { audio_tracks_loaded: true, ..s }, EventAction::LoadPendingAudioTracks, false)
        } else {
            (s, EventAction::Nothing, false)
        },
        MpvEvent::Other => (s, EventAction::Nothing, false),
    }
}

/// Reacts to one mpv event of a session.
pub fn session_event_step(state: SessionEventState, event: &MpvEvent) -> (r: (SessionEventState, EventAction, bool))
    ensures
        r == event_step(state, *event),
{
    match event {
        MpvEvent::EndOfFile => (SessionEventState { reached_eof: true, ..state }, EventAction::Nothing, false),
        MpvEvent::EndFileError | MpvEvent::EndFileOther | MpvEvent::Shutdown => (
            SessionEventState { alive: false, ..state },
            EventAction::Nothing,
            true,
        ),
        MpvEvent::PickerRequested(v) => {
            if state.observes_ui {
                let a = match picker_request(v.as_str()) {
                    Some(k) => EventAction::OpenPicker(k),
                    None => EventAction::Nothing,
                };
                (state, a, false)
            } else {
                (state, EventAction::Nothing, false)
            }
        },
        MpvEvent::AudioTrackChanged => {
            if state.observes_ui {
                (state, EventAction::ReadAudioSelection, false)
            } else {
                (state, EventAction::Nothing, false)
            }
        },
        MpvEvent::DurationKnown { positive } => {
            if state.observes_ui && *positive && !state.audio_tracks_loaded {
                (
                    SessionEventState { audio_tracks_loaded: true, ..state },
                    EventAction::LoadPendingAudioTracks,
                    false,
                )
            } else {
                (state, EventAction::Nothing, false)
            }
        },
        MpvEvent::Other => (state, EventAction::Nothing, false),
    }
}

/// A session that stopped being alive never comes back, and the deferred
/// audio tracks are loaded at most once, whatever events follow.
pub proof fn lemma_event_step_monotone(s: SessionEventState, e: MpvEvent)
    ensures
        !s.alive ==> !event_step(s, e).0.alive,
        s.audio_tracks_loaded ==> event_step(s, e).0.audio_tracks_loaded && event_step(s, e).1
            != EventAction::LoadPendingAudioTracks,
        event_step(s, e).2 ==> !event_step(s, e).0.alive,
{
}

/// What the monitor of a session does at the end of a tick.
#[derive(Debug, Clone, Copy, PartialEq, Eq, Structural)]
pub enum MonitorStep {
    /// The slot is empty or holds another session: this monitor ends.
    Stop,
    /// The session is no longer alive: tear it down, then end.
    TearDown,
    /// Keep watching: wait a tick and look again.
    Watch,
}

/// The step of the monitor started for session `mine`, when the session
/// slot holds session `current` (none when empty) and, when that is
/// `mine`, its refreshed status says `alive`.
pub open spec fn monitor_step_of(current: Option<u64>, mine: u64, alive: bool) -> MonitorStep {
    match current {
        None => MonitorStep::Stop,
        Some(id) => if id != mine {
            MonitorStep::Stop
        } else if !alive {
            MonitorStep::TearDown
        } else {
            MonitorStep::Watch
        },
    }
}

/// Decides the monitor's step (see `monitor_step_of`).
pub fn monitor_step(current: Option<u64>, mine: u64, alive: bool) -> (r: MonitorStep)
    ensures
        r == monitor_step_of(current, mine, alive),
{
    match current {
        None => MonitorStep::Stop,
        Some(id) => {
            if id != mine {
                MonitorStep::Stop
            } else if !alive {
                MonitorStep::TearDown
            } else {
                MonitorStep::Watch
            }
        },
    }
}

/// A monitor only ever tears down its own session, and keeps watching only
/// while that session is in the slot and alive.
pub proof fn lemma_monitor_tears_down_only_its_session(current: Option<u64>, mine: u64, alive: bool)
    ensures
        monitor_step_of(current, mine, alive) == MonitorStep::TearDown ==> current == Some(mine) && !alive,
        monitor_step_of(current, mine, alive) == MonitorStep::Watch <==> current == Some(mine) && alive,
{
}

/// Law: every listed audio track is loaded, in the listed order, selected
/// exactly when it is the default; a default that is not listed is added
/// after them, selected; nothing else is loaded.
pub proof fn lemma_audio_plan_lists_every_track(ids: Seq<i64>, default_audio: Option<i64>)
    ensures
        audio_plan(ids, default_audio).len() >= ids.len(),
        forall|i: int|
            0 <= i < ids.len() ==> #[trigger] audio_plan(ids, default_audio)[i] == (ids[i], default_audio == Some(
                ids[i],
            )),
        audio_plan(ids, default_audio).len() == ids.len() + (if default_audio matches Some(d) && !ids.contains(d) {
            1int
        } else {
            0int
        }),
        default_audio is Some && !ids.contains(default_audio.unwrap()) ==> audio_plan(ids, default_audio)[ids.len() as int]
            == (default_audio.unwrap(), true),
{
}

} // verus!
