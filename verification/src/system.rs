//! Host-facing bookkeeping: the sleep blocker held during transfers, the
//! feature log switches, the GPU adapter list, and the status of the
//! bundled binaries.
use vstd::prelude::*;
use crate::bot_env::{lines_of, split_lines};
use crate::text::string_views;
use crate::text::{eq_ignore_ascii_case, is_whitespace, str_eq, str_eq_ignore_ascii_case, trim, trim_string};

verus! {

/// Counts the holders that need the machine awake. The operating system's
/// sleep block goes on when the first holder arrives and off when the last
/// one leaves.
pub struct PowerGuard {
    count: usize,
}

impl PowerGuard {
    /// The number of holders.
    pub closed spec fn holders(&self) -> nat {
        self.count as nat
    }

    pub fn new() -> (r: Self)
        ensures
            r.holders() == 0,
    {
        PowerGuard { count: 0 }
    }

    /// A holder arrives. Returns whether the sleep block must be turned on
    /// now (there was no holder before). The count wraps like the atomic
    /// counter it stands for.
    pub fn acquire(&mut self) -> (r: bool)
        ensures
            r == (old(self).holders() == 0),
            final(self).holders() == (if old(self).holders() == usize::MAX {
                0
            } else {
                old(self).holders() + 1
            }),
    {
        let prev = self.count;
        self.count = self.count.wrapping_add(1);
        prev == 0
    }

    /// A holder leaves. Returns whether the sleep block must be turned off
    /// now (it was the last holder). Without holders nothing changes.
    pub fn release(&mut self) -> (r: bool)
        ensures
            r == (old(self).holders() == 1),
            final(self).holders() == (if old(self).holders() == 0 {
                0
            } else {
                old(self).holders() - 1
            }),
    {
        let prev = self.count;
        if prev == 0 {
            self.count = 0;
            return false;
        }
        self.count = prev - 1;
        prev == 1
    }
}

impl Default for PowerGuard {
    fn default() -> (r: Self)
        ensures
            r.holders() == 0,
    {
        PowerGuard::new()
    }
}

/// The holder count and whether the sleep block is on after the calls in
/// `ops` (`true` an `acquire`, `false` a `release`) from `new()`: the count
/// changes as those calls' contracts say, the block goes on when `acquire`
/// returns `true` and off when `release` returns `true`.
pub open spec fn guard_after(ops: Seq<bool>) -> (int, bool)
    decreases ops.len(),
{
    if ops.len() == 0 {
        (0, false)
    } else {
        let (c, b) = guard_after(ops.drop_last());
        if ops.last() {
            (if c == usize::MAX { 0 } else { c + 1 }, if c == 0 { true } else { b })
        } else {
            (if c == 0 { 0 } else { c - 1 }, if c == 1 { false } else { b })
        }
    }
}

/// After any sequence of acquires and releases (short enough that the count
/// cannot wrap), the sleep block is on exactly while there is a holder.
pub proof fn lemma_power_guard_balanced(ops: Seq<bool>)
    requires
        ops.len() < usize::MAX,
    ensures
        0 <= guard_after(ops).0 <= ops.len(),
        guard_after(ops).1 == (guard_after(ops).0 > 0),
    decreases ops.len(),
{
    if ops.len() > 0 {
        lemma_power_guard_balanced(ops.drop_last());
    }
}

/// The features whose logs can be switched on and off.
pub open spec fn feature_keys() -> Seq<Seq<char>> {
    seq!["upload"@, "download"@, "player"@, "drive"@, "settings"@, "diagnostics"@]
}

/// The feature log switches and where the logs go.
pub struct FeatureLogState {
    /// Each feature with whether its log is on.
    pub enabled: Vec<(String, bool)>,
    pub log_dir: String,
    pub frontend_enabled: bool,
}

/// The switch of `feature` among `entries`: the first entry for it.
pub open spec fn switch_of(entries: Seq<(String, bool)>, feature: Seq<char>) -> Option<bool>
    decreases entries.len(),
{
    if entries.len() == 0 {
        None
    } else if entries[0].0@ == feature {
        Some(entries[0].1)
    } else {
        switch_of(entries.drop_first(), feature)
    }
}

fn find_switch(entries: &[(String, bool)], feature: &str) -> (r: Option<bool>)
    ensures
        r == switch_of(entries@, feature@),
{
    let mut i: usize = 0;
    assert(entries@.subrange(0, entries@.len() as int) =~= entries@);
    while i < entries.len()
        invariant
            0 <= i <= entries@.len(),
            switch_of(entries@, feature@) == switch_of(entries@.subrange(i as int, entries@.len() as int), feature@),
        decreases entries@.len() - i,
    {
        let ghost rest = entries@.subrange(i as int, entries@.len() as int);
        assert(rest.drop_first() =~= entries@.subrange(i + 1, entries@.len() as int));
        if crate::text::str_eq(entries[i].0.as_str(), feature) {
            return Some(entries[i].1);
        }
        i = i + 1;
    }
    None
}

impl FeatureLogState {
    /// Is the log of `feature` on? Unknown features are off.
    pub fn is_enabled(&self, feature: &str) -> (r: bool)
        ensures
            r == (switch_of(self.enabled@, feature@) == Some(true)),
    {
        match find_switch(self.enabled.as_slice(), feature) {
            Some(b) => b,
            None => false,
        }
    }

    /// Every log target is written.
    pub fn is_target_enabled(&self, target: &str) -> (r: bool)
        ensures
            r,
    {
        true
    }
}

/// The level a frontend message is logged at.
#[derive(Debug, Clone, Copy, PartialEq, Eq, Structural)]
pub enum FrontendLevel {
    Error,
    Warn,
    Debug,
    Info,
}

/// The log target of a frontend message about `feature`.
pub open spec fn frontend_target(feature: Seq<char>) -> Seq<char> {
    if feature == "upload"@ {
        "feature::upload"@
    } else if feature == "download"@ {
        "feature::download"@
    } else if feature == "player"@ {
        "feature::player"@
    } else if feature == "drive"@ {
        "feature::drive"@
    } else if feature == "settings"@ {
        "feature::settings"@
    } else if feature == "diagnostics"@ {
        "feature::diagnostics"@
    } else {
        "feature::unknown"@
    }
}

/// The level named by `level`, in any letter case; anything else is info.
pub open spec fn frontend_level(level: Seq<char>) -> FrontendLevel {
    if eq_ignore_ascii_case(level, "error"@) {
        FrontendLevel::Error
    } else if eq_ignore_ascii_case(level, "warn"@) || eq_ignore_ascii_case(level, "warning"@) {
        FrontendLevel::Warn
    } else if eq_ignore_ascii_case(level, "debug"@) {
        FrontendLevel::Debug
    } else {
        FrontendLevel::Info
    }
}

fn frontend_target_of(feature: &str) -> (r: &'static str)
    ensures
        r@ == frontend_target(feature@),
{
    if str_eq(feature, "upload") {
        "feature::upload"
    } else if str_eq(feature, "download") {
        "feature::download"
    } else if str_eq(feature, "player") {
        "feature::player"
    } else if str_eq(feature, "drive") {
        "feature::drive"
    } else if str_eq(feature, "settings") {
        "feature::settings"
    } else if str_eq(feature, "diagnostics") {
        "feature::diagnostics"
    } else {
        "feature::unknown"
    }
}

impl FeatureLogState {
    /// Where a message the frontend logs about `feature` goes, and at which
    /// level: nowhere when frontend logging is off or the feature's log is off.
    pub fn frontend_log_route(&self, feature: &str, level: &str) -> (r: Option<(&'static str, FrontendLevel)>)
        ensures
            r is None <==> (!self.frontend_enabled || switch_of(self.enabled@, feature@) != Some(true)),
            r matches Some(route) ==> route.0@ == frontend_target(feature@) && route.1 == frontend_level(level@),
    {
        if !self.frontend_enabled || !self.is_enabled(feature) {
            return None;
        }
        let lvl = if str_eq_ignore_ascii_case(level, "error") {
            FrontendLevel::Error
        } else if str_eq_ignore_ascii_case(level, "warn") || str_eq_ignore_ascii_case(level, "warning") {
            FrontendLevel::Warn
        } else if str_eq_ignore_ascii_case(level, "debug") {
            FrontendLevel::Debug
        } else {
            FrontendLevel::Info
        };
        Some((frontend_target_of(feature), lvl))
    }
}

/// The name of the log file of `feature` (`<feature>.log`), for the features
/// that have one.
pub fn feature_log_file_name(feature: &str) -> (r: Option<String>)
    ensures
        r is Some <==> feature_keys().contains(feature@),
        r matches Some(name) ==> name@ == feature@ + ".log"@,
{
    let keys: [&str; 6] = ["upload", "download", "player", "drive", "settings", "diagnostics"];
    let ghost kv = seq![keys[0]@, keys[1]@, keys[2]@, keys[3]@, keys[4]@, keys[5]@];
    assert(kv =~= feature_keys());
    let mut i: usize = 0;
    while i < 6
        invariant
            0 <= i <= 6,
            kv == feature_keys(),
            forall|j: int| 0 <= j < 6 ==> #[trigger] keys@[j]@ == kv[j],
            forall|j: int| 0 <= j < i ==> kv[j] != feature@,
        decreases 6 - i,
    {
        if str_eq(keys[i], feature) {
            let mut name = String::from_str(feature);
            name.append(".log");
            proof {
                assert(kv[i as int] == feature@);
            }
            return Some(name);
        }
        i = i + 1;
    }
    proof {
        assert forall|j: int| 0 <= j < kv.len() implies kv[j] != feature@ by {}
    }
    None
}

/// The switch of each feature, in order: as configured, on when the
/// configuration does not say.
pub open spec fn feature_switches(config: Seq<(String, bool)>) -> Seq<(Seq<char>, bool)> {
    feature_keys().map_values(
        |k: Seq<char>|
            (
                k,
                match switch_of(config, k) {
                    Some(b) => b,
                    None => true,
                },
            ),
    )
}

/// Builds the feature switches from the configured ones.
pub fn feature_switches_from_config(config: &[(String, bool)]) -> (r: Vec<(String, bool)>)
    ensures
        r@.map_values(|e: (String, bool)| (e.0@, e.1)) == feature_switches(config@),
{
    let keys = ["upload", "download", "player", "drive", "settings", "diagnostics"];
    proof {
        reveal_strlit("upload");
        reveal_strlit("download");
        reveal_strlit("player");
        reveal_strlit("drive");
        reveal_strlit("settings");
        reveal_strlit("diagnostics");
    }
    let ghost kv = seq![keys[0]@, keys[1]@, keys[2]@, keys[3]@, keys[4]@, keys[5]@];
    assert(kv =~= feature_keys());
    let mut out: Vec<(String, bool)> = Vec::new();
    let mut i: usize = 0;
    while i < 6
        invariant
            0 <= i <= 6,
            kv == feature_keys(),
            forall|j: int| 0 <= j < 6 ==> #[trigger] keys@[j]@ == kv[j],
            out@.map_values(|e: (String, bool)| (e.0@, e.1)) == feature_switches(config@).subrange(0, i as int),
        decreases 6 - i,
    {
        let k = keys[i];
        let on = match find_switch(config, k) {
            Some(b) => b,
            None => true,
        };
        let ghost before = out@;
        out.push((String::from_str(k), on));
        assert(out@.map_values(|e: (String, bool)| (e.0@, e.1)) =~= before.map_values(
            |e: (String, bool)| (e.0@, e.1),
        ).push((k@, on)));
        assert(feature_switches(config@).subrange(0, i + 1) =~= feature_switches(config@).subrange(0, i as int).push(
            feature_switches(config@)[i as int],
        ));
        i = i + 1;
    }
    assert(feature_switches(config@).subrange(0, 6) =~= feature_switches(config@));
    out
}

/// The log filter: the configured level, or a verbose one when `DEBUG` is
/// set.
pub fn effective_log_level(configured: &str, debug_set: bool) -> (r: String)
    ensures
        r@ == (if debug_set {
            "info,omega_drive=trace,omega_drive_lib=trace,db::sql=info,telegram=trace"@
        } else {
            configured@
        }),
{
    if debug_set {
        String::from_str("info,omega_drive=trace,omega_drive_lib=trace,db::sql=info,telegram=trace")
    } else {
        String::from_str(configured)
    }
}

pub open spec fn trimmed_all(lines: Seq<Seq<char>>) -> Seq<Seq<char>> {
    lines.map_values(|l: Seq<char>| trim(l))
}

pub open spec fn nonempty() -> spec_fn(Seq<char>) -> bool {
    |l: Seq<char>| l.len() > 0
}

pub open spec fn nonblank_trimmed(lines: Seq<Seq<char>>) -> Seq<Seq<char>> {
    trimmed_all(lines).filter(nonempty())
}

proof fn lemma_filter_push_text(s: Seq<Seq<char>>, x: Seq<char>, p: spec_fn(Seq<char>) -> bool)
    ensures
        s.push(x).filter(p) == (if p(x) {
            s.filter(p).push(x)
        } else {
            s.filter(p)
        }),
{
    reveal(Seq::filter);
    assert(s.push(x).drop_last() =~= s);
}

/// The GPU names that the video controller query printed: its lines,
/// trimmed, without empty ones.
pub fn gpu_names_from_output(stdout: &str) -> (r: Vec<String>)
    ensures
        string_views(r@) == nonblank_trimmed(lines_of(stdout@)),
{
    let lines = split_lines(stdout);
    let ghost lv = string_views(lines@);
    let mut out: Vec<String> = Vec::new();
    let mut i: usize = 0;
    proof {
        reveal(Seq::filter);
        assert(trimmed_all(lv.subrange(0, 0)) =~= Seq::<Seq<char>>::empty());
    }
    while i < lines.len()
        invariant
            0 <= i <= lines@.len(),
            lv == string_views(lines@),
            lv == lines_of(stdout@),
            string_views(out@) == nonblank_trimmed(lv.subrange(0, i as int)),
        decreases lines@.len() - i,
    {
        let t = trim_string(lines[i].as_str());
        let ghost pre = lv.subrange(0, i as int);
        assert(lv.subrange(0, i + 1) =~= pre.push(lv[i as int]));
        assert(trimmed_all(pre.push(lv[i as int])) =~= trimmed_all(pre).push(trim(lv[i as int])));
        proof {
            lemma_filter_push_text(trimmed_all(pre), trim(lv[i as int]), nonempty());
        }
        let ghost before = string_views(out@);
        if t.as_str().unicode_len() > 0 {
            out.push(t);
            assert(string_views(out@) =~= before.push(trim(lv[i as int])));
        }
        i = i + 1;
    }
    assert(lv.subrange(0, i as int) =~= lv);
    out
}

/// The adapters offered for hardware decoding: `Auto`, then each GPU name
/// the first time it appears.
pub open spec fn adapter_list(names: Seq<Seq<char>>) -> Seq<Seq<char>>
    decreases names.len(),
{
    if names.len() == 0 {
        seq!["Auto"@]
    } else {
        let l = adapter_list(names.drop_last());
        if l.contains(names.last()) {
            l
        } else {
            l.push(names.last())
        }
    }
}

/// Lists the adapters for hardware decoding from the GPU names found.
pub fn enumerate_gpu_adapters(names: Vec<String>) -> (r: Vec<String>)
    ensures
        string_views(r@) == adapter_list(string_views(names@)),
{
    let ghost nv = string_views(names@);
    let mut list: Vec<String> = Vec::new();
    list.push(String::from_str("Auto"));
    proof {
        reveal_strlit("Auto");
        assert(string_views(list@) =~= adapter_list(nv.subrange(0, 0)));
    }
    let mut i: usize = 0;
    while i < names.len()
        invariant
            0 <= i <= names@.len(),
            nv == string_views(names@),
            string_views(list@) == adapter_list(nv.subrange(0, i as int)),
        decreases names@.len() - i,
    {
        let name = &names[i];
        let ghost lv = string_views(list@);
        assert(nv.subrange(0, i + 1).drop_last() =~= nv.subrange(0, i as int));
        assert(nv.subrange(0, i + 1).last() == name@);
        let mut found = false;
        let mut j: usize = 0;
        while j < list.len()
            invariant
                0 <= j <= list@.len(),
                lv == string_views(list@),
                found == exists|k: int| 0 <= k < j && lv[k] == name@,
            decreases list@.len() - j,
        {
            if list[j] == *name {
                assert(lv[j as int] == name@);
                found = true;
            }
            j = j + 1;
        }
        assert(found == lv.contains(name@));
        if !found {
            list.push(name.clone());
            assert(string_views(list@) =~= lv.push(name@));
        }
        i = i + 1;
    }
    assert(nv.subrange(0, i as int) =~= nv);
    list
}

/// The adapter list starts with `Auto`, holds every GPU name, and holds no
/// name twice.
pub proof fn lemma_adapter_list(names: Seq<Seq<char>>)
    ensures
        adapter_list(names).len() > 0,
        adapter_list(names)[0] == "Auto"@,
        forall|i: int| 0 <= i < names.len() ==> adapter_list(names).contains(#[trigger] names[i]),
        forall|i: int, j: int|
            0 <= i < j < adapter_list(names).len() ==> adapter_list(names)[i] != adapter_list(names)[j],
    decreases names.len(),
{
    if names.len() > 0 {
        let p = names.drop_last();
        lemma_adapter_list(p);
        let l = adapter_list(p);
        assert forall|i: int| 0 <= i < names.len() implies adapter_list(names).contains(#[trigger] names[i]) by {
            if i < names.len() - 1 {
                assert(names[i] == p[i]);
                assert(l.contains(p[i]));
                let k = choose|k: int| 0 <= k < l.len() && l[k] == p[i];
                assert(adapter_list(names)[k] == l[k]);
            } else if !l.contains(names.last()) {
                assert(adapter_list(names)[l.len() as int] == names.last());
            }
        }
    }
}

/// Where the word of `s` that starts at `i` ends.
pub open spec fn token_end(s: Seq<char>, i: int) -> int
    decreases s.len() - i,
{
    if i < 0 || i >= s.len() || is_whitespace(s[i]) {
        i
    } else {
        token_end(s, i + 1)
    }
}

pub proof fn lemma_token_end(s: Seq<char>, i: int)
    requires
        0 <= i <= s.len(),
    ensures
        i <= token_end(s, i) <= s.len(),
        i < s.len() && !is_whitespace(s[i]) ==> token_end(s, i) > i,
        forall|k: int| i <= k < token_end(s, i) ==> !is_whitespace(#[trigger] s[k]),
        token_end(s, i) < s.len() ==> is_whitespace(s[token_end(s, i)]),
    decreases s.len() - i,
{
    if i < s.len() && !is_whitespace(s[i]) {
        lemma_token_end(s, i + 1);
    }
}

/// The words of `s` from position `i` on, as `split_whitespace` gives them.
pub open spec fn words_from(s: Seq<char>, i: int) -> Seq<Seq<char>>
    decreases s.len() - i,
{
    if i < 0 || i >= s.len() {
        seq![]
    } else if is_whitespace(s[i]) {
        words_from(s, i + 1)
    } else {
        let j = token_end(s, i);
        proof {
            lemma_token_end(s, i);
        }
        seq![s.subrange(i, j)] + words_from(s, j)
    }
}

/// The words of `s`.
pub open spec fn words(s: Seq<char>) -> Seq<Seq<char>> {
    words_from(s, 0)
}

/// Splits `s` into its words.
pub fn split_words(s: &str) -> (r: Vec<String>)
    ensures
        string_views(r@) == words(s@),
{
    let n = s.unicode_len();
    let mut out: Vec<String> = Vec::new();
    let mut i: usize = 0;
    while i < n
        invariant
            0 <= i <= n == s@.len(),
            string_views(out@) + words_from(s@, i as int) == words(s@),
        decreases n - i,
    {
        if crate::text::char_is_whitespace(s.get_char(i)) {
            i = i + 1;
        } else {
            let mut j: usize = i + 1;
            proof {
                lemma_token_end(s@, i as int);
            }
            while j < n && !crate::text::char_is_whitespace(s.get_char(j))
                invariant
                    i < j <= n == s@.len(),
                    token_end(s@, i as int) == token_end(s@, j as int),
                    !is_whitespace(s@[i as int]),
                decreases n - j,
            {
                j = j + 1;
            }
            let ghost before = string_views(out@);
            let w = String::from_str(s.substring_char(i, j));
            out.push(w);
            assert(string_views(out@) =~= before.push(s@.subrange(i as int, j as int)));
            assert(words_from(s@, i as int) == seq![s@.subrange(i as int, j as int)] + words_from(s@, j as int));
            assert(string_views(out@) + words_from(s@, j as int) =~= before + words_from(s@, i as int));
            i = j;
        }
    }
    assert(words_from(s@, n as int) =~= Seq::<Seq<char>>::empty());
    assert(string_views(out@) =~= string_views(out@) + words_from(s@, n as int));
    out
}

/// `s` without its leading `n` characters, as `trim_start_matches('n')`.
pub open spec fn strip_leading_n(s: Seq<char>) -> Seq<char>
    decreases s.len(),
{
    if s.len() > 0 && s[0] == 'n' {
        strip_leading_n(s.drop_first())
    } else {
        s
    }
}

fn strip_leading_n_str(s: &str) -> (r: String)
    ensures
        r@ == strip_leading_n(s@),
{
    let n = s.unicode_len();
    let mut i: usize = 0;
    assert(s@.subrange(0, n as int) =~= s@);
    while i < n && s.get_char(i) == 'n'
        invariant
            0 <= i <= n == s@.len(),
            strip_leading_n(s@) == strip_leading_n(s@.subrange(i as int, n as int)),
        decreases n - i,
    {
        assert(s@.subrange(i as int, n as int).drop_first() =~= s@.subrange(i + 1, n as int));
        i = i + 1;
    }
    String::from_str(s.substring_char(i, n))
}

/// The version that a bundled binary prints for `--version`: the third word
/// of the first line (leading `n` dropped) for ffmpeg and ffprobe, the whole
/// trimmed output for yt-dlp, the second word of the first line for deno.
pub open spec fn version_from_output(name: Seq<char>, stdout: Seq<char>) -> Option<Seq<char>> {
    let ls = lines_of(stdout);
    if name == "ffmpeg"@ || name == "ffprobe"@ {
        if ls.len() > 0 && words(ls[0]).len() > 2 {
            Some(strip_leading_n(words(ls[0])[2]))
        } else {
            None
        }
    } else if name == "yt-dlp"@ {
        Some(trim(stdout))
    } else if name == "deno"@ {
        if ls.len() > 0 && words(ls[0]).len() > 1 {
            Some(words(ls[0])[1])
        } else {
            None
        }
    } else {
        None
    }
}

/// Reads a bundled binary's version from what it printed for `--version`.
pub fn binary_version_from_output(name: &str, stdout: &str) -> (r: Option<String>)
    ensures
        crate::text::opt_view(r) == version_from_output(name@, stdout@),
{
    proof {
        reveal_strlit("ffmpeg");
        reveal_strlit("ffprobe");
        reveal_strlit("yt-dlp");
        reveal_strlit("deno");
        assert("deno"@.len() == 4 && "yt-dlp"@.len() == 6 && "ffmpeg"@.len() == 6 && "ffprobe"@.len() == 7);
        assert("ffmpeg"@[0] != "yt-dlp"@[0]);
    }
    let is_ff = crate::text::str_eq(name, "ffmpeg") || crate::text::str_eq(name, "ffprobe");
    if is_ff || crate::text::str_eq(name, "deno") {
        let lines = split_lines(stdout);
        let ghost ls = lines_of(stdout@);
        if lines.len() == 0 {
            assert(ls.len() == 0);
            return None;
        }
        assert(string_views(lines@)[0] == lines@[0]@);
        let ws = split_words(lines[0].as_str());
        if is_ff {
            if ws.len() > 2 {
                assert(string_views(ws@)[2] == ws@[2]@);
                Some(strip_leading_n_str(ws[2].as_str()))
            } else {
                None
            }
        } else {
            if ws.len() > 1 {
                assert(string_views(ws@)[1] == ws@[1]@);
                Some(ws[1].clone())
            } else {
                None
            }
        }
    } else if crate::text::str_eq(name, "yt-dlp") {
        Some(trim_string(stdout))
    } else {
        None
    }
}

/// A bundled binary as the settings page shows it.
pub struct BinaryStatus {
    pub name: String,
    pub version: Option<String>,
    pub path: Option<String>,
    pub exists: bool,
    pub update_available: bool,
}

/// The status of a binary: its path and version only when it exists.
pub fn binary_status(
    name: &str,
    exists: bool,
    path_display: String,
    version: Option<String>,
    update_available: bool,
) -> (r: BinaryStatus)
    ensures
        r.name@ == name@,
        r.exists == exists,
        r.update_available == update_available,
        r.path == (if exists { Some(path_display) } else { None::<String> }),
        r.version == (if exists { version } else { None::<String> }),
{
    BinaryStatus {
        name: String::from_str(name),
        version: if exists { version } else { None },
        path: if exists { Some(path_display) } else { None },
        exists,
        update_available,
    }
}

/// What the diagnostics page reports about the installation.
pub struct BootstrapStatusSnapshot {
    pub bot_env_path: String,
    pub bot_env_exists: bool,
    pub discord_configured: bool,
    pub telegram_configured: bool,
    pub ffmpeg_ready: bool,
    pub ffprobe_ready: bool,
    pub native_player_ready: bool,
    pub ffmpeg_path: String,
    pub ffprobe_path: String,
    pub mpv_paths: Vec<String>,
}

/// Telegram counts as configured when the stored phone and api hash are not
/// empty and the api id parses as a positive `i32`.
pub fn telegram_env_configured(phone: &str, api_id: &str, api_hash: &str) -> (r: bool)
    ensures
        r == (phone@.len() > 0 && crate::onboarding::api_id_of(api_id@) > 0 && api_hash@.len() > 0),
{
    proof {
        crate::text::lemma_parse_signed_bounds(api_id@, i32::MAX as int);
    }
    let id: i32 = match crate::text::parse_i32(api_id) {
        Some(v) => v,
        None => 0,
    };
    phone.unicode_len() > 0 && id > 0 && api_hash.unicode_len() > 0
}

} // verus!
