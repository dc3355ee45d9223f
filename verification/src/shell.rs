//! Decisions of the desktop shell: how the process was started (video bridge
//! child, deep link, minimized), which renderer windows stopped sending
//! heartbeats, which database changes are backed up, and how a trashed file
//! is purged.
use vstd::prelude::*;
use crate::mpv::find_from;
use crate::text::{
    chars_of, has_prefix, parse_i64, parse_signed, parse_unsigned, parse_unsigned_range, starts_with, str_eq, string_views,
};

verus! {


/// How a video bridge child process was asked to run.
#[derive(Debug, Clone, Copy, PartialEq, Eq, Structural)]
pub struct VideoBridgeProcessArgs {
    pub port: u16,
    pub parent_pid: Option<u32>,
}

/// The flags read so far: bridge mode, port, parent process id.
pub open spec fn bridge_args_from(args: Seq<Seq<char>>, i: int, mode: bool, port: Option<int>, pid: Option<int>) -> (
    bool,
    Option<int>,
    Option<int>,
)
    decreases args.len() + 2 - i,
{
    if i < 1 || i >= args.len() {
        (mode, port, pid)
    } else if args[i] == "--video-bridge"@ {
        bridge_args_from(args, i + 1, true, port, pid)
    } else if args[i] == "--video-bridge-port"@ {
        let v = if i + 1 < args.len() {
            parse_unsigned(args[i + 1], u16::MAX as int)
        } else {
            None
        };
        bridge_args_from(args, i + 2, mode, v, pid)
    } else if args[i] == "--parent-pid"@ {
        let v = if i + 1 < args.len() {
            parse_unsigned(args[i + 1], u32::MAX as int)
        } else {
            None
        };
        bridge_args_from(args, i + 2, mode, port, v)
    } else {
        bridge_args_from(args, i + 1, mode, port, pid)
    }
}

/// The bridge arguments that the command line `args` (program name first)
/// gives: present only with `--video-bridge` and a valid port.
pub open spec fn bridge_args(args: Seq<Seq<char>>) -> Option<(int, Option<int>)> {
    let (mode, port, pid) = bridge_args_from(args, 1, false, None, None);
    if mode && port is Some {
        Some((port->0, pid))
    } else {
        None
    }
}

fn parse_number(s: &String, max: u64) -> (r: Option<u64>)
    ensures
        r matches Some(v) ==> v <= max,
        match r {
            Some(v) => parse_unsigned(s@, max as int) == Some(v as int),
            None => parse_unsigned(s@, max as int) is None,
        },
{
    let c = chars_of(s.as_str());
    assert(c@.subrange(0, c@.len() as int) =~= s@);
    proof {
        crate::text::lemma_parse_unsigned_bounds(s@, max as int);
    }
    parse_unsigned_range(&c, 0, c.len(), max)
}

/// Reads the command line (program name first) of a video bridge child:
/// `--video-bridge`, `--video-bridge-port <port>`, `--parent-pid <pid>`;
/// a flag's value is the argument after it, and later flags win.
pub fn parse_video_bridge_args(args: &[String]) -> (r: Option<VideoBridgeProcessArgs>)
    ensures
        match r {
            Some(a) => bridge_args(string_views(args@)) == Some((a.port as int, match a.parent_pid {
                Some(p) => Some(p as int),
                None => None::<int>,
            })),
            None => bridge_args(string_views(args@)) is None,
        },
{
    let ghost av = string_views(args@);
    let mut mode = false;
    let mut port: Option<u64> = None;
    let mut pid: Option<u64> = None;
    let mut i: usize = 1;
    proof {
        reveal_strlit("--video-bridge");
        reveal_strlit("--video-bridge-port");
        reveal_strlit("--parent-pid");
    }
    if args.len() == 0 {
        return None;
    }
    while i < args.len()
        invariant
            1 <= i <= args@.len(),
            av == string_views(args@),
            bridge_args_from(av, 1, false, None, None) == bridge_args_from(
                av,
                i as int,
                mode,
                match port {
                    Some(v) => Some(v as int),
                    None => None::<int>,
                },
                match pid {
                    Some(v) => Some(v as int),
                    None => None::<int>,
                },
            ),
            port matches Some(v) ==> v <= u16::MAX,
            pid matches Some(v) ==> v <= u32::MAX,
        decreases args@.len() + 2 - i,
    {
        let a = &args[i];
        assert(av[i as int] == a@);
        let ghost pm = match port {
            Some(v) => Some(v as int),
            None => None::<int>,
        };
        let ghost pp = match pid {
            Some(v) => Some(v as int),
            None => None::<int>,
        };
        if crate::text::str_eq(a.as_str(), "--video-bridge") {
            assert(bridge_args_from(av, i as int, mode, pm, pp) == bridge_args_from(av, i + 1, true, pm, pp));
            mode = true;
            i = i + 1;
        } else if crate::text::str_eq(a.as_str(), "--video-bridge-port") {
            let ghost v = if i + 1 < av.len() {
                parse_unsigned(av[i + 1], u16::MAX as int)
            } else {
                None
            };
            assert(bridge_args_from(av, i as int, mode, pm, pp) == bridge_args_from(av, i + 2, mode, v, pp));
            port = if i + 1 < args.len() {
                assert(av[i + 1] == args@[i + 1]@);
                parse_number(&args[i + 1], 65535)
            } else {
                None
            };
            i = if i + 1 < args.len() { i + 2 } else { args.len() };
        } else if crate::text::str_eq(a.as_str(), "--parent-pid") {
            let ghost v = if i + 1 < av.len() {
                parse_unsigned(av[i + 1], u32::MAX as int)
            } else {
                None
            };
            assert(bridge_args_from(av, i as int, mode, pm, pp) == bridge_args_from(av, i + 2, mode, pm, v));
            pid = if i + 1 < args.len() {
                assert(av[i + 1] == args@[i + 1]@);
                parse_number(&args[i + 1], 4294967295)
            } else {
                None
            };
            i = if i + 1 < args.len() { i + 2 } else { args.len() };
        } else {
            i = i + 1;
        }
    }
    if !mode {
        return None;
    }
    match port {
        None => None,
        Some(p) => Some(
            VideoBridgeProcessArgs {
                port: p as u16,
                parent_pid: match pid {
                    Some(v) => Some(v as u32),
                    None => None,
                },
            },
        ),
    }
}

/// `s` with every occurrence of the non-empty `pat` removed, left to right,
/// as `str::replace(pat, "")` gives it.
pub open spec fn remove_all(s: Seq<char>, pat: Seq<char>) -> Seq<char>
    decreases s.len(),
{
    if pat.len() == 0 {
        s
    } else {
        match find_from(s, pat, 0) {
            None => s,
            Some(i) => if 0 <= i && i + pat.len() <= s.len() {
                s.subrange(0, i) + remove_all(s.subrange(i + pat.len(), s.len() as int), pat)
            } else {
                s
            },
        }
    }
}

/// Removes every occurrence of `pat` from `s`.
pub fn remove_all_str(s: &str, pat: &str) -> (r: String)
    requires
        pat@.len() > 0,
    ensures
        r@ == remove_all(s@, pat@),
{
    let n = s.unicode_len();
    let m = pat.unicode_len();
    let mut out = String::new();
    let mut from: usize = 0;
    assert(s@.subrange(0, n as int) =~= s@);
    assert(out@ + remove_all(s@, pat@) =~= remove_all(s@, pat@));
    while from <= n
        invariant
            0 <= from <= n == s@.len(),
            m == pat@.len(),
            m > 0,
            out@ + remove_all(s@.subrange(from as int, n as int), pat@) == remove_all(s@, pat@),
        decreases n + 1 - from,
    {
        let ghost rest = s@.subrange(from as int, n as int);
        let rest_str = s.substring_char(from, n);
        match crate::mpv::find_str_from(rest_str, pat, 0) {
            None => {
                out.append(rest_str);
                assert(remove_all(rest, pat@) == rest);
                return out;
            },
            Some(k) => {
                proof {
                    crate::mpv::lemma_find_from_bounds(rest, pat@, 0);
                }
                let ghost before = out@;
                out.append(rest_str.substring_char(0, k));
                proof {
                    assert(rest.subrange(k + m, rest.len() as int) =~= s@.subrange(from + k + m, n as int));
                    assert(rest.subrange(0, k as int) =~= s@.subrange(from as int, from + k));
                    assert(out@ =~= before + rest.subrange(0, k as int));
                }
                from = from + k + m;
            },
        }
    }
    out
}


/// The deep-link scheme.
pub open spec fn link_prefix() -> Seq<char> {
    "omegadrive://"@
}

/// Deep links that open a file in the player.
pub open spec fn play_prefix() -> Seq<char> {
    "omegadrive://play/"@
}


/// The first argument that is a deep link.
pub open spec fn first_link(args: Seq<Seq<char>>, from: int) -> Option<int>
    decreases args.len() - from,
{
    if from < 0 || from >= args.len() {
        None
    } else if has_prefix(args[from], link_prefix()) {
        Some(from)
    } else {
        first_link(args, from + 1)
    }
}

/// The first argument that is a deep link other than a play link.
pub open spec fn first_other_link(args: Seq<Seq<char>>, from: int) -> Option<int>
    decreases args.len() - from,
{
    if from < 0 || from >= args.len() {
        None
    } else if has_prefix(args[from], link_prefix()) && !has_prefix(args[from], play_prefix()) {
        Some(from)
    } else {
        first_other_link(args, from + 1)
    }
}

/// The file id of a play link: the link with every `omegadrive://play/`
/// removed, read as an `i64`.
pub open spec fn play_file_id(url: Seq<char>) -> Option<int> {
    parse_signed(remove_all(url, play_prefix()), i64::MAX as int)
}

/// What a deep link on the command line asks for.
#[derive(Debug, Clone, PartialEq, Eq)]
pub enum DeepLink {
    /// Play the file; `None` when the id does not parse.
    Play(Option<i64>),
    /// Hand the link to the window.
    Forward(String),
}

fn find_link(args: &[String], other_only: bool) -> (r: Option<usize>)
    ensures
        r matches Some(i) ==> i < args@.len(),
        match r {
            Some(i) => (if other_only {
                first_other_link(string_views(args@), 0)
            } else {
                first_link(string_views(args@), 0)
            }) == Some(i as int),
            None => (if other_only {
                first_other_link(string_views(args@), 0)
            } else {
                first_link(string_views(args@), 0)
            }) is None,
        },
{
    let ghost av = string_views(args@);
    proof {
        reveal_strlit("omegadrive://");
        reveal_strlit("omegadrive://play/");
    }
    let mut i: usize = 0;
    while i < args.len()
        invariant
            0 <= i <= args@.len(),
            av == string_views(args@),
            other_only ==> first_other_link(av, 0) == first_other_link(av, i as int),
            !other_only ==> first_link(av, 0) == first_link(av, i as int),
        decreases args@.len() - i,
    {
        assert(av[i as int] == args@[i as int]@);
        let is_link = starts_with(args[i].as_str(), "omegadrive://");
        let is_play = starts_with(args[i].as_str(), "omegadrive://play/");
        if is_link && (!other_only || !is_play) {
            return Some(i);
        }
        i = i + 1;
    }
    None
}

fn link_file_id(url: &String) -> (r: Option<i64>)
    ensures
        r == (match play_file_id(url@) {
            Some(v) => Some(v as i64),
            None => None::<i64>,
        }),
{
    proof {
        reveal_strlit("omegadrive://play/");
    }
    let rest = remove_all_str(url.as_str(), "omegadrive://play/");
    proof {
        crate::text::lemma_parse_signed_bounds(rest@, i64::MAX as int);
    }
    parse_i64(rest.as_str())
}

/// What a second launch of the app (single instance) asks for: the first
/// deep link among its arguments; the window shows unless it is a play link.
pub fn second_instance_action(argv: &[String]) -> (r: (Option<DeepLink>, bool))
    ensures
        match first_link(string_views(argv@), 0) {
            None => r == (None::<DeepLink>, true),
            Some(i) => if has_prefix(string_views(argv@)[i], play_prefix()) {
                !r.1 && r.0 == Some(DeepLink::Play(match play_file_id(string_views(argv@)[i]) {
                    Some(v) => Some(v as i64),
                    None => None::<i64>,
                }))
            } else {
                r.1 && (r.0 matches Some(DeepLink::Forward(u)) && u@ == string_views(argv@)[i])
            },
        },
{
    proof {
        reveal_strlit("omegadrive://play/");
    }
    match find_link(argv, false) {
        None => (None, true),
        Some(i) => {
            let url = &argv[i];
            assert(string_views(argv@)[i as int] == url@);
            if starts_with(url.as_str(), "omegadrive://play/") {
                (Some(DeepLink::Play(link_file_id(url))), false)
            } else {
                (Some(DeepLink::Forward(url.clone())), true)
            }
        },
    }
}

/// What the first launch does.
pub struct StartupPlan {
    pub show_ui: bool,
    /// The file to play at once.
    pub play_file: Option<i64>,
    /// The deep link to hand to the window.
    pub emit_url: Option<String>,
}

/// Plans the first launch from its command line: the window stays hidden
/// with `--minimized` or when the first deep link is a play link (whose file
/// is then played); the first other deep link is handed to the window.
pub fn startup_plan(args: &[String]) -> (r: StartupPlan)
    ensures
        ({
            let av = string_views(args@);
            let play = match first_link(av, 0) {
                Some(i) => has_prefix(av[i], play_prefix()),
                None => false,
            };
            &&& r.show_ui == (!av.contains("--minimized"@) && !play)
            &&& r.play_file == (match first_link(av, 0) {
                Some(i) if play => match play_file_id(av[i]) {
                    Some(v) => Some(v as i64),
                    None => None::<i64>,
                },
                _ => None::<i64>,
            })
            &&& crate::text::opt_view(r.emit_url) == (match first_other_link(av, 0) {
                Some(j) => Some(av[j]),
                None => None::<Seq<char>>,
            })
        }),
{
    let ghost av = string_views(args@);
    proof {
        reveal_strlit("--minimized");
        reveal_strlit("omegadrive://play/");
    }
    let mut minimized = false;
    let mut i: usize = 0;
    while i < args.len()
        invariant
            0 <= i <= args@.len(),
            av == string_views(args@),
            minimized == exists|k: int| 0 <= k < i && av[k] == "--minimized"@,
        decreases args@.len() - i,
    {
        assert(av[i as int] == args@[i as int]@);
        if crate::text::str_eq(args[i].as_str(), "--minimized") {
            minimized = true;
        }
        i = i + 1;
    }
    assert(minimized == av.contains("--minimized"@));
    let mut show_ui = !minimized;
    let mut play_file: Option<i64> = None;
    match find_link(args, false) {
        Some(k) => {
            assert(av[k as int] == args@[k as int]@);
            if starts_with(args[k].as_str(), "omegadrive://play/") {
                show_ui = false;
                play_file = link_file_id(&args[k]);
            }
        },
        None => {},
    }
    let emit_url = match find_link(args, true) {
        Some(k) => {
            assert(av[k as int] == args@[k as int]@);
            Some(args[k].clone())
        },
        None => None,
    };
    StartupPlan { show_ui, play_file, emit_url }
}

/// A renderer window's last heartbeat.
pub struct HeartbeatStatus {
    pub label: String,
    pub context: String,
    pub last_seen_epoch_secs: u64,
    pub visible: bool,
    pub focused: bool,
}

pub open spec fn lag(now: u64, last: u64) -> int {
    if now >= last {
        now - last
    } else {
        0
    }
}

/// Entries younger than five minutes are kept.
pub open spec fn kept_heartbeat(h: HeartbeatStatus, now: u64) -> bool {
    lag(now, h.last_seen_epoch_secs) <= 300
}

/// A visible or focused window that has been silent for more than 15 s.
pub open spec fn overdue_heartbeat(h: HeartbeatStatus, now: u64) -> bool {
    (h.visible || h.focused) && lag(now, h.last_seen_epoch_secs) > 15
}

impl Clone for HeartbeatStatus {
    fn clone(&self) -> (r: Self)
        ensures
            r == *self,
    {
        HeartbeatStatus {
            label: self.label.clone(),
            context: self.context.clone(),
            last_seen_epoch_secs: self.last_seen_epoch_secs,
            visible: self.visible,
            focused: self.focused,
        }
    }
}

pub open spec fn kept_pred(now: u64) -> spec_fn(HeartbeatStatus) -> bool {
    |h: HeartbeatStatus| kept_heartbeat(h, now)
}

proof fn lemma_filter_push_hb(s: Seq<HeartbeatStatus>, x: HeartbeatStatus, p: spec_fn(HeartbeatStatus) -> bool)
    ensures
        s.push(x).filter(p) == (if p(x) {
            s.filter(p).push(x)
        } else {
            s.filter(p)
        }),
{
    reveal(Seq::filter);
    assert(s.push(x).drop_last() =~= s);
}

/// Every listed position is a kept window whose heartbeat is overdue.
pub open spec fn overdue_sound(kept: Seq<HeartbeatStatus>, overdue: Seq<usize>, now: u64) -> bool {
    forall|k: int| #![trigger overdue[k]] 0 <= k < overdue.len() ==> overdue[k] < kept.len() && overdue_heartbeat(
        kept[overdue[k] as int],
        now,
    )
}

/// Every kept window whose heartbeat is overdue is listed.
pub open spec fn overdue_complete(kept: Seq<HeartbeatStatus>, overdue: Seq<usize>, now: u64) -> bool {
    forall|j: int| 0 <= j < kept.len() && overdue_heartbeat(kept[j], now) ==> #[trigger] overdue.contains(j as usize)
}

proof fn lemma_overdue_push(kept: Seq<HeartbeatStatus>, overdue: Seq<usize>, h: HeartbeatStatus, now: u64)
    requires
        overdue_sound(kept, overdue, now),
        overdue_complete(kept, overdue, now),
        kept.len() < usize::MAX,
    ensures
        ({
            let o2 = if overdue_heartbeat(h, now) {
                overdue.push(kept.len() as usize)
            } else {
                overdue
            };
            overdue_sound(kept.push(h), o2, now) && overdue_complete(kept.push(h), o2, now)
        }),
{
    let k2 = kept.push(h);
    let o2 = if overdue_heartbeat(h, now) {
        overdue.push(kept.len() as usize)
    } else {
        overdue
    };
    assert forall|k: int| #![trigger o2[k]] 0 <= k < o2.len() implies o2[k] < k2.len() && overdue_heartbeat(
        k2[o2[k] as int],
        now,
    ) by {
        if k < overdue.len() {
            assert(o2[k] == overdue[k]);
            assert(overdue[k] < kept.len() && overdue_heartbeat(kept[overdue[k] as int], now));
            assert(k2[overdue[k] as int] == kept[overdue[k] as int]);
        }
    }
    assert forall|j: int| 0 <= j < k2.len() && overdue_heartbeat(k2[j], now) implies #[trigger] o2.contains(
        j as usize,
    ) by {
        if j < kept.len() {
            assert(k2[j] == kept[j]);
            assert(overdue.contains(j as usize));
            let w = choose|w: int| 0 <= w < overdue.len() && overdue[w] == j as usize;
            assert(o2[w] == overdue[w]);
        } else {
            assert(o2[o2.len() - 1] == j as usize);
        }
    }
}

/// One pass of the UI watchdog at `now`: keeps the entries at most five
/// minutes old, in order, and returns the positions (among the kept ones)
/// of the windows whose heartbeat is overdue, in order.
pub fn watchdog_sweep(registry: &Vec<HeartbeatStatus>, now: u64) -> (r: (Vec<HeartbeatStatus>, Vec<usize>))
    ensures
        r.0@ == registry@.filter(kept_pred(now)),
        overdue_sound(r.0@, r.1@, now),
        overdue_complete(r.0@, r.1@, now),
{
    let mut kept: Vec<HeartbeatStatus> = Vec::new();
    let mut overdue: Vec<usize> = Vec::new();
    let mut i: usize = 0;
    proof {
        reveal(Seq::filter);
    }
    while i < registry.len()
        invariant
            0 <= i <= registry@.len(),
            kept@ == registry@.subrange(0, i as int).filter(kept_pred(now)),
            kept@.len() <= i,
            overdue_sound(kept@, overdue@, now),
            overdue_complete(kept@, overdue@, now),
        decreases registry@.len() - i,
    {
        let h = registry[i].clone();
        let ghost pre = registry@.subrange(0, i as int);
        assert(registry@.subrange(0, i + 1) =~= pre.push(h));
        proof {
            lemma_filter_push_hb(pre, h, kept_pred(now));
        }
        let age: u64 = if now >= h.last_seen_epoch_secs { now - h.last_seen_epoch_secs } else { 0 };
        if age <= 300 {
            let pos = kept.len();
            let late = (h.visible || h.focused) && age > 15;
            proof {
                lemma_overdue_push(kept@, overdue@, h, now);
            }
            kept.push(h);
            if late {
                overdue.push(pos);
            }
        }
        i = i + 1;
    }
    assert(registry@.subrange(0, i as int) =~= registry@);
    (kept, overdue)
}

/// The webview counts as dead when a window event was seen and none came
/// for more than 15 s.
pub fn webview_silent(last_event_secs: u64, now_secs: u64) -> (r: bool)
    ensures
        r == (last_event_secs != 0 && lag(now_secs, last_event_secs) > 15),
{
    last_event_secs != 0 && now_secs >= last_event_secs && now_secs - last_event_secs > 15
}

/// A file whose upload was interrupted: still uploading or processing, with
/// its local copy known.
pub fn is_stalled_upload(status: &str, has_local_path: bool) -> (r: bool)
    ensures
        r == ((status@ == "uploading"@ || status@ == "processing"@) && has_local_path),
{
    (crate::text::str_eq(status, "uploading") || crate::text::str_eq(status, "processing")) && has_local_path
}

/// The backup priority of a change to `table`: 1 for folders and tenant
/// metadata, 2 for upload profiles, their rules and transfer jobs, none for
/// other tables.
pub open spec fn backup_priority_spec(table: Seq<char>) -> Option<u8> {
    if table == "folders"@ || table == "tenant_meta"@ {
        Some(1)
    } else if table == "upload_profiles"@ || table == "upload_profile_rules"@ || table == "upload_jobs"@ || table
        == "download_jobs"@ {
        Some(2)
    } else {
        None
    }
}

/// The backup priority of a change to `table`.
pub fn backup_priority(table: &str) -> (r: Option<u8>)
    ensures
        r == backup_priority_spec(table@),
{
    if str_eq(table, "folders") || str_eq(table, "tenant_meta") {
        Some(1)
    } else if str_eq(table, "upload_profiles") || str_eq(table, "upload_profile_rules") || str_eq(
        table,
        "upload_jobs",
    ) || str_eq(table, "download_jobs") {
        Some(2)
    } else {
        None
    }
}

/// A row change that the database reports.
#[derive(Debug, Clone, Copy, PartialEq, Eq, Structural)]
pub enum RowAction {
    Insert,
    Update,
    Delete,
    Other,
}

/// The name under which a row change is backed up.
pub fn row_action_name(action: RowAction) -> (r: &'static str)
    ensures
        r@ == (match action {
            RowAction::Insert => "insert"@,
            RowAction::Update => "update"@,
            RowAction::Delete => "delete"@,
            RowAction::Other => "unknown"@,
        }),
{
    match action {
        RowAction::Insert => "insert",
        RowAction::Update => "update",
        RowAction::Delete => "delete",
        RowAction::Other => "unknown",
    }
}

/// Where the purge of a trashed file stands.
#[derive(Debug, Clone, Copy, PartialEq, Eq, Structural)]
pub enum PurgeStage {
    /// The file must be claimed (`trashed` to `purging`).
    Claim,
    /// Its artifacts must be deleted from each provider.
    DeleteRemote,
    /// A provider failed: the file goes back to `trashed` for the next pass.
    Revert,
    /// Its state is captured for the backup, then its record deleted.
    SnapshotAndDelete,
    /// Nothing more to do for this file.
    Done,
}

/// What the last step reported.
#[derive(Debug, Clone, Copy, PartialEq, Eq, Structural)]
pub enum PurgeEvent {
    /// How many rows the claim changed.
    Claimed(u64),
    /// Whether every provider deleted its artifacts.
    RemoteDeleted(bool),
    StepDone,
}

pub open spec fn purge_next(stage: PurgeStage, event: PurgeEvent) -> PurgeStage {
    match (stage, event) {
        (PurgeStage::Claim, PurgeEvent::Claimed(n)) => if n == 0 {
            PurgeStage::Done
        } else {
            PurgeStage::DeleteRemote
        },
        (PurgeStage::DeleteRemote, PurgeEvent::RemoteDeleted(ok)) => if ok {
            PurgeStage::SnapshotAndDelete
        } else {
            PurgeStage::Revert
        },
        (PurgeStage::Revert, PurgeEvent::StepDone) => PurgeStage::Done,
        (PurgeStage::SnapshotAndDelete, PurgeEvent::StepDone) => PurgeStage::Done,
        (s, _) => s,
    }
}

/// The garbage collector's next stage for a trashed file. Events that do
/// not belong to the stage leave it unchanged.
pub fn purge_step(stage: PurgeStage, event: PurgeEvent) -> (r: PurgeStage)
    ensures
        r == purge_next(stage, event),
{
    match (stage, event) {
        (PurgeStage::Claim, PurgeEvent::Claimed(n)) => if n == 0 {
            PurgeStage::Done
        } else {
            PurgeStage::DeleteRemote
        },
        (PurgeStage::DeleteRemote, PurgeEvent::RemoteDeleted(ok)) => if ok {
            PurgeStage::SnapshotAndDelete
        } else {
            PurgeStage::Revert
        },
        (PurgeStage::Revert, PurgeEvent::StepDone) => PurgeStage::Done,
        (PurgeStage::SnapshotAndDelete, PurgeEvent::StepDone) => PurgeStage::Done,
        (s, _) => s,
    }
}

/// The stage after a run of events, from `Claim`.
pub open spec fn purge_run(events: Seq<PurgeEvent>) -> PurgeStage
    decreases events.len(),
{
    if events.len() == 0 {
        PurgeStage::Claim
    } else {
        purge_next(purge_run(events.drop_last()), events.last())
    }
}

/// A file's record is deleted only if the file was claimed and every
/// provider deleted its artifacts: whenever a run reaches
/// `SnapshotAndDelete`, its events hold a claim of at least one row and a
/// full remote deletion, and no failed one.
pub proof fn lemma_purge_deletes_only_after_remote(events: Seq<PurgeEvent>)
    ensures
        purge_run(events) == PurgeStage::SnapshotAndDelete ==> (exists|i: int|
            0 <= i < events.len() && #[trigger] events[i] == PurgeEvent::RemoteDeleted(true)) && (exists|i: int|
            0 <= i < events.len() && (#[trigger] events[i] matches PurgeEvent::Claimed(n) && n > 0)),
        purge_run(events) == PurgeStage::DeleteRemote ==> exists|i: int|
            0 <= i < events.len() && (#[trigger] events[i] matches PurgeEvent::Claimed(n) && n > 0),
        purge_run(events) == PurgeStage::Done ==> purge_run(events.push(PurgeEvent::StepDone))
            == PurgeStage::Done,
    decreases events.len(),
{
    if events.len() > 0 {
        let p = events.drop_last();
        lemma_purge_deletes_only_after_remote(p);
        let last = events.len() - 1;
        if purge_run(p) == PurgeStage::DeleteRemote {
            let i = choose|i: int| 0 <= i < p.len() && (#[trigger] p[i] matches PurgeEvent::Claimed(n) && n > 0);
            assert(events[i] == p[i]);
        }
        if purge_run(p) == PurgeStage::SnapshotAndDelete {
            let i = choose|i: int| 0 <= i < p.len() && #[trigger] p[i] == PurgeEvent::RemoteDeleted(true);
            let j = choose|j: int| 0 <= j < p.len() && (#[trigger] p[j] matches PurgeEvent::Claimed(n) && n > 0);
            assert(events[i] == p[i]);
            assert(events[j] == p[j]);
        }
        assert(events[last] == events.last());
    }
    assert(events.push(PurgeEvent::StepDone).drop_last() =~= events);
}

pub open spec fn platform_pred<P>(key: Seq<char>) -> spec_fn((String, P)) -> bool {
    |e: (String, P)| e.0@ == key
}

/// The payloads of the parts stored on platform `key`, in order.
pub open spec fn platform_group<P>(parts: Seq<(String, P)>, key: Seq<char>) -> Seq<P> {
    parts.filter(platform_pred::<P>(key)).map_values(|e: (String, P)| e.1)
}

proof fn lemma_group_push<P>(s: Seq<(String, P)>, x: (String, P), key: Seq<char>)
    ensures
        platform_group(s.push(x), key) == (if x.0@ == key {
            platform_group(s, key).push(x.1)
        } else {
            platform_group(s, key)
        }),
{
    reveal(Seq::filter);
    assert(s.push(x).drop_last() =~= s);
    let f = s.filter(platform_pred::<P>(key));
    if x.0@ == key {
        assert(f.push(x).map_values(|e: (String, P)| e.1) =~= f.map_values(|e: (String, P)| e.1).push(x.1));
    }
}

/// Is `key` among the platforms `keys`?
pub open spec fn key_listed(keys: Seq<String>, key: Seq<char>) -> bool {
    exists|k: int| 0 <= k < keys.len() && #[trigger] keys[k]@ == key
}

/// Groups `parts` (platform, payload) by platform: the platforms in order of
/// first appearance, each with its payloads in order.
pub fn group_by_platform<P>(parts: Vec<(String, P)>) -> (r: (Vec<String>, Vec<Vec<P>>))
    ensures
        r.0@.len() == r.1@.len(),
        forall|i: int, j: int| 0 <= i < j < r.0@.len() ==> r.0@[i]@ != r.0@[j]@,
        forall|k: int| 0 <= k < r.0@.len() ==> #[trigger] r.1@[k]@ == platform_group(parts@, r.0@[k]@),
        forall|i: int| 0 <= i < parts@.len() ==> key_listed(r.0@, #[trigger] parts@[i].0@),
{
    let ghost orig = parts@;
    let mut rest = parts;
    let n0 = rest.len();
    assert(n0 == orig.len());
    let mut keys: Vec<String> = Vec::new();
    let mut groups: Vec<Vec<P>> = Vec::new();
    let mut i: usize = 0;
    proof {
        reveal(Seq::filter);
        assert(rest@ =~= orig.subrange(0, orig.len() as int));
    }
    while rest.len() > 0
        invariant
            0 <= i <= orig.len(),
            orig.len() <= usize::MAX,
            orig == parts@,
            rest@ == orig.subrange(i as int, orig.len() as int),
            keys@.len() == groups@.len(),
            forall|a: int, b: int| 0 <= a < b < keys@.len() ==> keys@[a]@ != keys@[b]@,
            forall|k: int| 0 <= k < keys@.len() ==> #[trigger] groups@[k]@ == platform_group(
                orig.subrange(0, i as int),
                keys@[k]@,
            ),
            forall|x: int| #![trigger orig[x]] 0 <= x < i ==> exists|k: int| 0 <= k < keys@.len() && #[trigger] keys@[k]@ == orig[x].0@,
            forall|key: Seq<char>|
                (forall|k: int| 0 <= k < keys@.len() ==> #[trigger] keys@[k]@ != key) ==> #[trigger] platform_group(
                    orig.subrange(0, i as int),
                    key,
                ).len() == 0,
        decreases rest@.len(),
    {
        let (platform, payload) = rest.remove(0);
        let ghost x = orig[i as int];
        let ghost pre = orig.subrange(0, i as int);
        assert(x == (platform, payload));
        assert(orig.subrange(0, i + 1) =~= pre.push(x));
        assert(rest@ =~= orig.subrange(i + 1, orig.len() as int));
        let mut found: Option<usize> = None;
        let mut k: usize = 0;
        while k < keys.len()
            invariant
                0 <= k <= keys@.len(),
                found matches Some(f) ==> f < keys@.len() && keys@[f as int]@ == platform@,
                found is None ==> forall|t: int| 0 <= t < k ==> keys@[t]@ != platform@,
            decreases keys@.len() - k,
        {
            if found.is_none() && keys[k] == platform {
                found = Some(k);
            }
            k = k + 1;
        }
        let ghost old_keys = keys@;
        let ghost old_groups = groups@;
        match found {
            Some(f) => {
                let mut g = groups.remove(f);
                g.push(payload);
                groups.insert(f, g);
                proof {
                    assert forall|t: int| 0 <= t < keys@.len() implies #[trigger] groups@[t]@ == platform_group(
                        orig.subrange(0, i + 1),
                        keys@[t]@,
                    ) by {
                        lemma_group_push(pre, x, keys@[t]@);
                        if t != f {
                            assert(groups@[t] == old_groups[t]);
                            if t < f {
                                assert(keys@[t]@ != keys@[f as int]@);
                            } else {
                                assert(keys@[f as int]@ != keys@[t]@);
                            }
                        }
                    }
                    assert forall|key: Seq<char>|
                        (forall|t: int| 0 <= t < keys@.len() ==> #[trigger] keys@[t]@ != key) implies #[trigger] platform_group(
                        orig.subrange(0, i + 1),
                        key,
                    ).len() == 0 by {
                        lemma_group_push(pre, x, key);
                        assert(keys@[f as int]@ != key);
                    }
                    assert forall|y: int| #![trigger orig[y]] 0 <= y < i + 1 implies exists|t: int|
                        0 <= t < keys@.len() && #[trigger] keys@[t]@ == orig[y].0@ by {
                        if y == i {
                            assert(keys@[f as int]@ == orig[y].0@);
                        }
                    }
                }
            },
            None => {
                let ghost key = platform@;
                let mut g: Vec<P> = Vec::new();
                g.push(payload);
                keys.push(platform);
                groups.push(g);
                proof {
                    lemma_group_push(pre, x, key);
                    assert(platform_group(pre, key).len() == 0);
                    assert(platform_group(pre, key).push(x.1) =~= g@);
                    assert forall|t: int| 0 <= t < keys@.len() implies #[trigger] groups@[t]@ == platform_group(
                        orig.subrange(0, i + 1),
                        keys@[t]@,
                    ) by {
                        lemma_group_push(pre, x, keys@[t]@);
                        if t < old_keys.len() {
                            assert(keys@[t] == old_keys[t]);
                            assert(groups@[t] == old_groups[t]);
                        }
                    }
                    assert forall|key2: Seq<char>|
                        (forall|t: int| 0 <= t < keys@.len() ==> #[trigger] keys@[t]@ != key2) implies #[trigger] platform_group(
                        orig.subrange(0, i + 1),
                        key2,
                    ).len() == 0 by {
                        lemma_group_push(pre, x, key2);
                        assert(keys@[old_keys.len() as int]@ != key2);
                        assert forall|t: int| 0 <= t < old_keys.len() implies #[trigger] old_keys[t]@ != key2 by {
                            assert(keys@[t] == old_keys[t]);
                        }
                    }
                    assert forall|y: int| #![trigger orig[y]] 0 <= y < i + 1 implies exists|t: int|
                        0 <= t < keys@.len() && #[trigger] keys@[t]@ == orig[y].0@ by {
                        if y == i {
                            assert(keys@[old_keys.len() as int]@ == orig[y].0@);
                        } else {
                            let t = choose|t: int| 0 <= t < old_keys.len() && #[trigger] old_keys[t]@ == orig[y].0@;
                            assert(keys@[t] == old_keys[t]);
                        }
                    }
                }
            },
        }
        i = i + 1;
    }
    assert(orig.subrange(0, i as int) =~= orig);
    assert forall|y: int| 0 <= y < parts@.len() implies key_listed(keys@, #[trigger] parts@[y].0@) by {
        assert(parts@[y] == orig[y]);
    }
    (keys, groups)
}

/// Where an import's upload plan comes from.
#[derive(Debug, Clone, Copy, PartialEq, Eq, Structural)]
pub enum PlanLookup {
    /// The caller gave the plan.
    Given,
    /// The plan of the profile with this id.
    Profile(i64),
    /// The plan of the first profile.
    FirstProfile,
}

/// Which plan to look up: none when one is given, else the requested
/// profile's, else the first profile's.
pub fn plan_lookup(plan_given: bool, profile_id: Option<i64>) -> (r: PlanLookup)
    ensures
        r == (if plan_given {
            PlanLookup::Given
        } else {
            match profile_id {
                Some(id) => PlanLookup::Profile(id),
                None => PlanLookup::FirstProfile,
            }
        }),
{
    if plan_given {
        PlanLookup::Given
    } else {
        match profile_id {
            Some(id) => PlanLookup::Profile(id),
            None => PlanLookup::FirstProfile,
        }
    }
}

/// The upload plan of an import: the one given, else the plan the lookup
/// that `plan_lookup` chose found, else the default plan.
pub fn resolve_upload_plan<P>(explicit: Option<P>, looked_up: Option<P>, default_plan: P) -> (r: P)
    ensures
        r == (match explicit {
            Some(p) => p,
            None => match looked_up {
                Some(p) => p,
                None => default_plan,
            },
        }),
{
    match explicit {
        Some(p) => p,
        None => match looked_up {
            Some(p) => p,
            None => default_plan,
        },
    }
}

/// Only web links are opened outside the app: `http://` or `https://`.
pub open spec fn openable_url(url: Seq<char>) -> bool {
    has_prefix(url, "http://"@) || has_prefix(url, "https://"@)
}

/// Whether `url` may be opened in the user's browser.
pub fn external_url_allowed(url: &str) -> (r: bool)
    ensures
        r == openable_url(url@),
{
    starts_with(url, "http://") || starts_with(url, "https://")
}

} // verus!
