//! The player runtime: which windows are playing, how the video bridge child
//! process is started and found, and where the mpv runtime may be installed.
use vstd::prelude::*;
use crate::text::{decimal_digits, str_eq, string_views, u64_decimal_string};

verus! {

/// The labels of the windows that are playing something, each once.
pub struct PlaybackWindows {
    labels: Vec<String>,
}

impl PlaybackWindows {
    /// No label occurs twice.
    pub closed spec fn wf(&self) -> bool {
        forall|i: int, j: int|
            0 <= i < j < self.labels@.len() ==> (#[trigger] self.labels@[i])@ != (#[trigger] self.labels@[j])@
    }

    /// Is `label` among the playing windows?
    pub closed spec fn has(&self, label: Seq<char>) -> bool {
        exists|i: int| 0 <= i < self.labels@.len() && (#[trigger] self.labels@[i])@ == label
    }

    /// The playing windows.
    pub closed spec fn active(&self) -> Set<Seq<char>> {
        Set::new(|l: Seq<char>| self.has(l))
    }

    /// No window is playing.
    pub fn new() -> (r: Self)
        ensures
            r.wf(),
            r.active() == Set::<Seq<char>>::empty(),
    {
        let r = PlaybackWindows { labels: Vec::new() };
        assert(r.active() =~= Set::<Seq<char>>::empty());
        r
    }

    fn position(&self, label: &str) -> (r: Option<usize>)
        ensures
            match r {
                Some(i) => i < self.labels@.len() && self.labels@[i as int]@ == label@,
                None => !self.has(label@),
            },
    {
        let mut i: usize = 0;
        while i < self.labels.len()
            invariant
                0 <= i <= self.labels@.len(),
                forall|j: int| 0 <= j < i ==> (#[trigger] self.labels@[j])@ != label@,
            decreases self.labels@.len() - i,
        {
            if str_eq(self.labels[i].as_str(), label) {
                return Some(i);
            }
            i = i + 1;
        }
        None
    }

    /// Is any window playing?
    pub fn any_active(&self) -> (r: bool)
        ensures
            r <==> exists|l: Seq<char>| self.active().contains(l),
    {
        if self.labels.len() > 0 {
            assert(self.active().contains(self.labels@[0]@));
            true
        } else {
            false
        }
    }

    /// Records that window `label` started (`active`) or stopped playing, and
    /// tells whether any window is playing afterwards.
    pub fn set_active(&mut self, label: String, active: bool) -> (r: bool)
        requires
            old(self).wf(),
        ensures
            final(self).wf(),
            final(self).active() == (if active {
                old(self).active().insert(label@)
            } else {
                old(self).active().remove(label@)
            }),
            r <==> exists|l: Seq<char>| final(self).active().contains(l),
    {
        let ghost before = *self;
        match self.position(label.as_str()) {
            Some(i) => {
                if !active {
                    let ghost old_labels = self.labels@;
                    self.labels.remove(i);
                    proof {
                        assert forall|l: Seq<char>| self.has(l) <==> (before.has(l) && l != label@) by {
                            if self.has(l) {
                                let k = choose|k: int| 0 <= k < self.labels@.len() && (#[trigger] self.labels@[k])@ == l;
                                if k < i {
                                    assert(old_labels[k] == self.labels@[k]);
                                } else {
                                    assert(old_labels[k + 1] == self.labels@[k]);
                                }
                            }
                            if before.has(l) && l != label@ {
                                let k = choose|k: int| 0 <= k < old_labels.len() && (#[trigger] old_labels[k])@ == l;
                                if k < i {
                                    assert(self.labels@[k] == old_labels[k]);
                                } else {
                                    assert(k != i);
                                    assert(self.labels@[k - 1] == old_labels[k]);
                                }
                            }
                        }
                        assert(self.active() =~= before.active().remove(label@));
                    }
                } else {
                    assert(self.active() =~= before.active().insert(label@));
                }
            },
            None => {
                if active {
                    let ghost old_labels = self.labels@;
                    let ghost lv = label@;
                    self.labels.push(label);
                    proof {
                        assert(self.labels@[old_labels.len() as int]@ == lv);
                        assert forall|l: Seq<char>| self.has(l) <==> (before.has(l) || l == lv) by {
                            if self.has(l) {
                                let k = choose|k: int| 0 <= k < self.labels@.len() && (#[trigger] self.labels@[k])@ == l;
                                if k < old_labels.len() {
                                    assert(old_labels[k] == self.labels@[k]);
                                }
                            }
                            if before.has(l) {
                                let k = choose|k: int| 0 <= k < old_labels.len() && (#[trigger] old_labels[k])@ == l;
                                assert(self.labels@[k] == old_labels[k]);
                            }
                        }
                        assert(self.active() =~= before.active().insert(lv));
                    }
                } else {
                    assert(self.active() =~= before.active().remove(label@));
                }
            },
        }
        self.any_active()
    }
}

/// Starting a window's playback makes some window active; stopping it leaves
/// none active exactly when it was the only one.
pub proof fn lemma_playback_activity(active: Set<Seq<char>>, label: Seq<char>)
    ensures
        active.insert(label).contains(label),
        (exists|l: Seq<char>| active.remove(label).contains(l)) <==> (exists|l: Seq<char>|
            active.contains(l) && l != label),
{
    assert forall|l: Seq<char>| active.remove(label).contains(l) <==> (active.contains(l) && l != label) by {}
}

/// How many times the video bridge child is started before giving up.
pub const BRIDGE_SPAWN_ATTEMPTS: u32 = 3;

/// How one attempt to start the video bridge child ended.
pub enum BridgeAttempt {
    /// The child answers on this port.
    Ready(u16),
    /// Starting it, or waiting for it, failed with this message.
    Failed(String),
}

/// What to do after an attempt.
#[derive(Debug)]
pub enum BridgeSpawnAction {
    /// The bridge runs on this port.
    Done(u16),
    /// Wait this many milliseconds, then try again.
    RetryAfterMs(u64),
    /// Stop, with this error.
    GiveUp(String),
}

/// The error after the last attempt failed with `last`.
pub open spec fn bridge_give_up_message(last: Seq<char>) -> Seq<char> {
    "Failed to spawn video bridge after 3 attempts. Last error: "@ + last
}

/// The decision after attempt number `attempt` (counted from 0) ended with
/// `outcome`: a ready bridge is used; a failure is retried after 500 ms
/// times the attempt's number, until the third failure gives up.
pub fn bridge_spawn_step(attempt: u32, outcome: BridgeAttempt) -> (r: BridgeSpawnAction)
    requires
        attempt < BRIDGE_SPAWN_ATTEMPTS,
    ensures
        outcome matches BridgeAttempt::Ready(p) ==> r == BridgeSpawnAction::Done(p),
        outcome matches BridgeAttempt::Failed(e) ==> (if attempt + 1 < BRIDGE_SPAWN_ATTEMPTS {
            r == BridgeSpawnAction::RetryAfterMs((500 * (attempt + 1)) as u64)
        } else {
            r matches BridgeSpawnAction::GiveUp(m) && m@ == bridge_give_up_message(e@)
        }),
{
    match outcome {
        BridgeAttempt::Ready(p) => BridgeSpawnAction::Done(p),
        BridgeAttempt::Failed(e) => {
            if attempt + 1 < BRIDGE_SPAWN_ATTEMPTS {
                BridgeSpawnAction::RetryAfterMs(500 * (attempt as u64 + 1))
            } else {
                let mut m = String::from_str("Failed to spawn video bridge after 3 attempts. Last error: ");
                m.append(e.as_str());
                BridgeSpawnAction::GiveUp(m)
            }
        },
    }
}

/// How many ports, from the configured one up, are tried for the bridge.
pub const BRIDGE_PORT_SCAN: u16 = 100;

/// The ports probed for the bridge in one round, in order: the configured
/// port, then the 99 above it.
pub fn bridge_probe_ports(port: u16) -> (r: Vec<u16>)
    requires
        port + BRIDGE_PORT_SCAN - 1 <= u16::MAX,
    ensures
        r@.len() == BRIDGE_PORT_SCAN,
        forall|i: int| 0 <= i < r@.len() ==> r@[i] == port + i,
{
    let mut r: Vec<u16> = Vec::new();
    let mut offset: u16 = 0;
    while offset < BRIDGE_PORT_SCAN
        invariant
            0 <= offset <= BRIDGE_PORT_SCAN,
            port + BRIDGE_PORT_SCAN - 1 <= u16::MAX,
            r@.len() == offset,
            forall|i: int| 0 <= i < r@.len() ==> r@[i] == port + i,
        decreases BRIDGE_PORT_SCAN - offset,
    {
        r.push(port + offset);
        offset = offset + 1;
    }
    r
}

/// The error when no port answered in time.
pub open spec fn bridge_scan_timeout_message(port: u16, probe_ip: Seq<char>) -> Seq<char> {
    "Timed out scanning ports "@ + decimal_digits(port as nat) + "-"@ + decimal_digits(
        (port + BRIDGE_PORT_SCAN - 1) as nat,
    ) + " (probe_ip="@ + probe_ip + ")"@
}

/// The error when no port of the scan answered in time.
pub fn bridge_timeout_message(port: u16, probe_ip: &str) -> (r: String)
    requires
        port + BRIDGE_PORT_SCAN - 1 <= u16::MAX,
    ensures
        r@ == bridge_scan_timeout_message(port, probe_ip@),
{
    let mut m = String::from_str("Timed out scanning ports ");
    m.append(u64_decimal_string(port as u64).as_str());
    m.append("-");
    m.append(u64_decimal_string(port as u64 + (BRIDGE_PORT_SCAN - 1) as u64).as_str());
    m.append(" (probe_ip=");
    m.append(probe_ip);
    m.append(")");
    m
}

/// The first bytes of an HTTP/1.1 success.
pub open spec fn http11_ok() -> Seq<u8> {
    seq![72u8, 84u8, 84u8, 80u8, 47u8, 49u8, 46u8, 49u8, 32u8, 50u8, 48u8, 48u8]
}

/// The first bytes of an HTTP/1.0 success.
pub open spec fn http10_ok() -> Seq<u8> {
    seq![72u8, 84u8, 84u8, 80u8, 47u8, 49u8, 46u8, 48u8, 32u8, 50u8, 48u8, 48u8]
}

fn has_byte_prefix(b: &[u8], p: &[u8]) -> (r: bool)
    ensures
        r == (p@.len() <= b@.len() && b@.subrange(0, p@.len() as int) == p@),
{
    if p.len() > b.len() {
        return false;
    }
    let mut i: usize = 0;
    while i < p.len()
        invariant
            0 <= i <= p@.len(),
            p@.len() <= b@.len(),
            forall|j: int| 0 <= j < i ==> b@[j] == p@[j],
        decreases p@.len() - i,
    {
        if b[i] != p[i] {
            assert(b@.subrange(0, p@.len() as int)[i as int] != p@[i as int]);
            return false;
        }
        i = i + 1;
    }
    assert(b@.subrange(0, p@.len() as int) =~= p@);
    true
}

/// Does a reply that starts with `head` say the bridge is up (an HTTP 200
/// status line)?
pub fn bridge_status_ok(head: &[u8]) -> (r: bool)
    ensures
        r == (head@.len() >= 12 && (head@.subrange(0, 12) == http11_ok() || head@.subrange(0, 12) == http10_ok())),
{
    let ok11: [u8; 12] = [72, 84, 84, 80, 47, 49, 46, 49, 32, 50, 48, 48];
    let ok10: [u8; 12] = [72, 84, 84, 80, 47, 49, 46, 48, 32, 50, 48, 48];
    assert(ok11@ =~= http11_ok());
    assert(ok10@ =~= http10_ok());
    has_byte_prefix(head, ok11.as_slice()) || has_byte_prefix(head, ok10.as_slice())
}

/// A directory the mpv runtime library may be installed in.
#[derive(Debug, Clone, Copy, PartialEq, Eq, Structural)]
pub enum RuntimeDir {
    /// The directory of the running executable.
    Exe,
    /// The `binaries` directory of the development tree.
    DevBinaries,
}

/// A place the mpv runtime library may be: a file in a directory, or in that
/// directory's `binaries` subdirectory.
#[derive(Debug)]
pub struct RuntimeCandidate {
    pub dir: RuntimeDir,
    pub in_binaries: bool,
    pub file: &'static str,
}

/// The places searched for the mpv runtime, in order, given which of the two
/// directories are known.
pub open spec fn runtime_candidates(has_exe_dir: bool, has_dev_dir: bool) -> Seq<(RuntimeDir, bool, Seq<char>)> {
    (if has_exe_dir {
        seq![
            (RuntimeDir::Exe, false, "mpv-1.dll"@),
            (RuntimeDir::Exe, false, "mpv.dll"@),
            (RuntimeDir::Exe, true, "mpv-1.dll"@),
            (RuntimeDir::Exe, true, "mpv.dll"@),
        ]
    } else {
        seq![]
    }) + (if has_dev_dir {
        seq![(RuntimeDir::DevBinaries, false, "mpv-1.dll"@), (RuntimeDir::DevBinaries, false, "mpv.dll"@)]
    } else {
        seq![]
    })
}

/// The places to look for the mpv runtime library.
pub fn mpv_runtime_candidates(has_exe_dir: bool, has_dev_dir: bool) -> (r: Vec<RuntimeCandidate>)
    ensures
        r@.len() == runtime_candidates(has_exe_dir, has_dev_dir).len(),
        forall|i: int|
            0 <= i < r@.len() ==> (#[trigger] r@[i]).dir == runtime_candidates(has_exe_dir, has_dev_dir)[i].0
                && r@[i].in_binaries == runtime_candidates(has_exe_dir, has_dev_dir)[i].1 && r@[i].file@
                == runtime_candidates(has_exe_dir, has_dev_dir)[i].2,
{
    let mut r: Vec<RuntimeCandidate> = Vec::new();
    if has_exe_dir {
        r.push(RuntimeCandidate { dir: RuntimeDir::Exe, in_binaries: false, file: "mpv-1.dll" });
        r.push(RuntimeCandidate { dir: RuntimeDir::Exe, in_binaries: false, file: "mpv.dll" });
        r.push(RuntimeCandidate { dir: RuntimeDir::Exe, in_binaries: true, file: "mpv-1.dll" });
        r.push(RuntimeCandidate { dir: RuntimeDir::Exe, in_binaries: true, file: "mpv.dll" });
    }
    if has_dev_dir {
        r.push(RuntimeCandidate { dir: RuntimeDir::DevBinaries, in_binaries: false, file: "mpv-1.dll" });
        r.push(RuntimeCandidate { dir: RuntimeDir::DevBinaries, in_binaries: false, file: "mpv.dll" });
    }
    r
}

/// Can the native player start? Outside Windows mpv is linked in; on
/// Windows one of the candidate runtime files must exist.
pub fn native_player_runtime_ready(is_windows: bool, candidate_exists: &Vec<bool>) -> (r: bool)
    ensures
        r == (!is_windows || candidate_exists@.contains(true)),
{
    if !is_windows {
        return true;
    }
    let mut i: usize = 0;
    while i < candidate_exists.len()
        invariant
            0 <= i <= candidate_exists@.len(),
            forall|j: int| 0 <= j < i ==> !candidate_exists@[j],
        decreases candidate_exists@.len() - i,
    {
        if candidate_exists[i] {
            assert(candidate_exists@[i as int]);
            return true;
        }
        i = i + 1;
    }
    false
}

/// The first `n` paths, keeping those that exist.
pub open spec fn existing_paths(paths: Seq<Seq<char>>, exists: Seq<bool>, n: nat) -> Seq<Seq<char>>
    decreases n,
{
    if n == 0 {
        seq![]
    } else {
        let rest = existing_paths(paths, exists, (n - 1) as nat);
        if exists[n - 1] {
            rest.push(paths[n - 1])
        } else {
            rest
        }
    }
}

/// The paths that exist, in order.
pub fn existing_path_strings(paths: &Vec<String>, exists: &Vec<bool>) -> (r: Vec<String>)
    requires
        paths@.len() == exists@.len(),
    ensures
        string_views(r@) == existing_paths(string_views(paths@), exists@, paths@.len() as nat),
{
    let ghost pv = string_views(paths@);
    let mut r: Vec<String> = Vec::new();
    let mut i: usize = 0;
    while i < paths.len()
        invariant
            0 <= i <= paths@.len(),
            paths@.len() == exists@.len(),
            pv == string_views(paths@),
            string_views(r@) == existing_paths(pv, exists@, i as nat),
        decreases paths@.len() - i,
    {
        if exists[i] {
            let ghost before = r@;
            r.push(paths[i].clone());
            proof {
                assert(string_views(r@) =~= string_views(before).push(pv[i as int]));
            }
        }
        i = i + 1;
    }
    r
}

/// The candidates as the error lists them: each in single quotes, separated
/// by a comma and a space.
pub open spec fn quoted_list(s: Seq<Seq<char>>) -> Seq<char>
    decreases s.len(),
{
    if s.len() == 0 {
        seq![]
    } else if s.len() == 1 {
        "'"@ + s[0] + "'"@
    } else {
        quoted_list(s.drop_last()) + ", "@ + "'"@ + s.last() + "'"@
    }
}

/// The error when no candidate script exists.
pub open spec fn ui_script_missing(tried: Seq<Seq<char>>) -> Seq<char> {
    "Failed to locate bundled mpv Lua UI script. Tried "@ + quoted_list(tried) + "."@
}

/// The player UI script to load: the first candidate that is a file, or the
/// error that lists every candidate tried.
pub fn pick_ui_script(candidates: &Vec<String>, is_file: &Vec<bool>) -> (r: Result<usize, String>)
    requires
        candidates@.len() == is_file@.len(),
    ensures
        r matches Ok(i) ==> i < candidates@.len() && is_file@[i as int] && forall|j: int|
            0 <= j < i ==> !is_file@[j],
        r is Err <==> !is_file@.contains(true),
        r matches Err(m) ==> m@ == ui_script_missing(string_views(candidates@)),
{
    let mut i: usize = 0;
    while i < is_file.len()
        invariant
            0 <= i <= is_file@.len(),
            candidates@.len() == is_file@.len(),
            forall|j: int| 0 <= j < i ==> !is_file@[j],
        decreases is_file@.len() - i,
    {
        if is_file[i] {
            assert(is_file@[i as int]);
            return Ok(i);
        }
        i = i + 1;
    }
    let ghost sv = string_views(candidates@);
    let mut listed = String::new();
    let mut k: usize = 0;
    while k < candidates.len()
        invariant
            0 <= k <= candidates@.len(),
            sv == string_views(candidates@),
            listed@ == quoted_list(sv.subrange(0, k as int)),
        decreases candidates@.len() - k,
    {
        let ghost prev = sv.subrange(0, k as int);
        let ghost next = sv.subrange(0, k + 1);
        proof {
            assert(next.drop_last() =~= prev);
            assert(next.last() == candidates@[k as int]@);
        }
        if k > 0 {
            listed.append(", ");
        }
        listed.append("'");
        listed.append(candidates[k].as_str());
        listed.append("'");
        proof {
            if k == 0 {
                assert(quoted_list(prev) == Seq::<char>::empty());
                assert(listed@ =~= "'"@ + next[0] + "'"@);
            } else {
                assert(listed@ =~= quoted_list(prev) + ", "@ + "'"@ + next.last() + "'"@);
            }
        }
        k = k + 1;
    }
    assert(sv.subrange(0, candidates@.len() as int) =~= sv);
    let mut m = String::from_str("Failed to locate bundled mpv Lua UI script. Tried ");
    m.append(listed.as_str());
    m.append(".");
    Err(m)
}

/// The error when no port of the bridge's range could be bound.
pub open spec fn no_free_port_message(port: u16, err: Seq<char>) -> Seq<char> {
    "No free port in range "@ + decimal_digits(port as nat) + "-"@ + decimal_digits(
        (port + BRIDGE_PORT_SCAN - 1) as nat,
    ) + ": "@ + err
}

/// The error when none of the bridge's ports could be bound, the last bind
/// having failed with `err`.
pub fn no_free_port_error(port: u16, err: &str) -> (r: String)
    requires
        port + BRIDGE_PORT_SCAN - 1 <= u16::MAX,
    ensures
        r@ == no_free_port_message(port, err@),
{
    let mut m = String::from_str("No free port in range ");
    m.append(u64_decimal_string(port as u64).as_str());
    m.append("-");
    m.append(u64_decimal_string(port as u64 + (BRIDGE_PORT_SCAN - 1) as u64).as_str());
    m.append(": ");
    m.append(err);
    m
}

/// The address the player reaches the bridge on, from a probe listener
/// bound to 127.0.0.1 (`None` when binding or reading its address failed;
/// else whether the address it got is a loopback one, and its IPv4 octets
/// when it is IPv4): loopback when it works, else the address the system
/// moved the listener to, else loopback.
pub fn working_ip(probe: Option<(bool, Option<[u8; 4]>)>) -> (r: [u8; 4])
    ensures
        r@ == (match probe {
            Some((false, Some(a))) => a@,
            _ => seq![127u8, 0u8, 0u8, 1u8],
        }),
{
    let loopback: [u8; 4] = [127, 0, 0, 1];
    assert(loopback@ =~= seq![127u8, 0u8, 0u8, 1u8]);
    match probe {
        Some((false, Some(a))) => a,
        _ => loopback,
    }
}

} // verus!
