//! Internal extensions: their manifests, the registry that dispatches
//! commands to them, and the dependencies an extension may reach.
use vstd::prelude::*;
use crate::text::{is_whitespace, lemma_lex_total, lex_lt, str_eq, str_lt};

verus! {

/// A service of the host that an extension may depend on.
#[derive(Debug, Clone, Copy, PartialEq, Eq, Structural, Hash)]
pub enum ExtensionDependencyKey {
    UiEvents,
    Drive,
    Upload,
    Download,
    Playback,
    Settings,
    Plugins,
    Diagnostics,
    FeatureLogs,
}

impl ExtensionDependencyKey {
    pub open spec fn name(self) -> Seq<char> {
        match self {
            ExtensionDependencyKey::UiEvents => "ui_events"@,
            ExtensionDependencyKey::Drive => "drive"@,
            ExtensionDependencyKey::Upload => "upload"@,
            ExtensionDependencyKey::Download => "download"@,
            ExtensionDependencyKey::Playback => "playback"@,
            ExtensionDependencyKey::Settings => "settings"@,
            ExtensionDependencyKey::Plugins => "plugins"@,
            ExtensionDependencyKey::Diagnostics => "diagnostics"@,
            ExtensionDependencyKey::FeatureLogs => "feature_logs"@,
        }
    }

    /// Every key, in declaration order.
    pub fn all() -> (r: [ExtensionDependencyKey; 9])
        ensures
            r@ == seq![
                ExtensionDependencyKey::UiEvents,
                ExtensionDependencyKey::Drive,
                ExtensionDependencyKey::Upload,
                ExtensionDependencyKey::Download,
                ExtensionDependencyKey::Playback,
                ExtensionDependencyKey::Settings,
                ExtensionDependencyKey::Plugins,
                ExtensionDependencyKey::Diagnostics,
                ExtensionDependencyKey::FeatureLogs,
            ],
    {
        let r = [
            ExtensionDependencyKey::UiEvents,
            ExtensionDependencyKey::Drive,
            ExtensionDependencyKey::Upload,
            ExtensionDependencyKey::Download,
            ExtensionDependencyKey::Playback,
            ExtensionDependencyKey::Settings,
            ExtensionDependencyKey::Plugins,
            ExtensionDependencyKey::Diagnostics,
            ExtensionDependencyKey::FeatureLogs,
        ];
        assert(r@ =~= seq![
            ExtensionDependencyKey::UiEvents,
            ExtensionDependencyKey::Drive,
            ExtensionDependencyKey::Upload,
            ExtensionDependencyKey::Download,
            ExtensionDependencyKey::Playback,
            ExtensionDependencyKey::Settings,
            ExtensionDependencyKey::Plugins,
            ExtensionDependencyKey::Diagnostics,
            ExtensionDependencyKey::FeatureLogs,
        ]);
        r
    }

    /// The key's name in manifests (snake case).
    pub fn as_str(self) -> (r: &'static str)
        ensures
            r@ == self.name(),
    {
        match self {
            ExtensionDependencyKey::UiEvents => "ui_events",
            ExtensionDependencyKey::Drive => "drive",
            ExtensionDependencyKey::Upload => "upload",
            ExtensionDependencyKey::Download => "download",
            ExtensionDependencyKey::Playback => "playback",
            ExtensionDependencyKey::Settings => "settings",
            ExtensionDependencyKey::Plugins => "plugins",
            ExtensionDependencyKey::Diagnostics => "diagnostics",
            ExtensionDependencyKey::FeatureLogs => "feature_logs",
        }
    }
}

/// What an extension declares about itself.
#[derive(Debug)]
pub struct ExtensionManifest {
    pub id: String,
    pub version: String,
    pub description: String,
    pub frontend: bool,
    pub commands: Vec<String>,
    pub dependencies: Vec<ExtensionDependencyKey>,
}

/// Why a manifest is refused; command errors carry the command's position.
#[derive(Debug, Clone, Copy, PartialEq, Eq)]
pub enum ManifestError {
    InvalidExtensionId,
    MissingVersion,
    MissingDescription,
    NoCommands,
    InvalidCommandId(usize),
    DuplicateCommand(usize),
}

pub open spec fn is_id_char(c: char, dot: bool) -> bool {
    ('a' <= c <= 'z') || ('0' <= c <= '9') || c == '_' || (dot && c == '.')
}

/// `segment.segment[...]`: lower-case ASCII letters, digits and `_`, with
/// dots between non-empty segments and at least one dot.
pub open spec fn valid_extension_id(s: Seq<char>) -> bool {
    &&& exists|i: int| 0 <= i < s.len() && s[i] == '.'
    &&& !(s.len() > 0 && s[0] == '.')
    &&& !(s.len() > 0 && s[s.len() - 1] == '.')
    &&& forall|i: int| 0 <= i < s.len() - 1 ==> !(#[trigger] s[i] == '.' && s[i + 1] == '.')
    &&& forall|i: int| 0 <= i < s.len() ==> is_id_char(#[trigger] s[i], true)
}

/// A non-empty run of lower-case ASCII letters, digits and `_`.
pub open spec fn valid_command_id(s: Seq<char>) -> bool {
    s.len() > 0 && forall|i: int| 0 <= i < s.len() ==> is_id_char(#[trigger] s[i], false)
}

/// Only whitespace (the text is empty once trimmed).
pub open spec fn blank(s: Seq<char>) -> bool {
    forall|i: int| 0 <= i < s.len() ==> is_whitespace(#[trigger] s[i])
}

/// The first command (by position) that is invalid or repeats an earlier one.
pub open spec fn first_bad_command(cmds: Seq<Seq<char>>, n: int) -> Option<ManifestError>
    decreases n,
{
    if n <= 0 {
        None
    } else {
        match first_bad_command(cmds, n - 1) {
            Some(e) => Some(e),
            None => if !valid_command_id(cmds[n - 1]) {
                Some(ManifestError::InvalidCommandId((n - 1) as usize))
            } else if exists|j: int| 0 <= j < n - 1 && #[trigger] cmds[j] == cmds[n - 1] {
                Some(ManifestError::DuplicateCommand((n - 1) as usize))
            } else {
                None
            },
        }
    }
}

proof fn lemma_first_bad_stable(cmds: Seq<Seq<char>>, m: int, n: int)
    requires
        0 <= m <= n,
        first_bad_command(cmds, m) is Some,
    ensures
        first_bad_command(cmds, n) == first_bad_command(cmds, m),
    decreases n - m,
{
    if n > m {
        lemma_first_bad_stable(cmds, m, n - 1);
    }
}

pub open spec fn command_views(cmds: Seq<String>) -> Seq<Seq<char>> {
    cmds.map_values(|c: String| c@)
}

/// The verdict on a manifest: the first failing check, in order.
pub open spec fn manifest_verdict(m: ExtensionManifest) -> Result<(), ManifestError> {
    if !valid_extension_id(m.id@) {
        Err(ManifestError::InvalidExtensionId)
    } else if blank(m.version@) {
        Err(ManifestError::MissingVersion)
    } else if blank(m.description@) {
        Err(ManifestError::MissingDescription)
    } else if m.commands@.len() == 0 {
        Err(ManifestError::NoCommands)
    } else {
        match first_bad_command(command_views(m.commands@), m.commands@.len() as int) {
            Some(e) => Err(e),
            None => Ok(()),
        }
    }
}

fn is_blank(s: &str) -> (r: bool)
    ensures
        r == blank(s@),
{
    let n = s.unicode_len();
    let mut i: usize = 0;
    while i < n
        invariant
            0 <= i <= n == s@.len(),
            forall|j: int| 0 <= j < i ==> is_whitespace(#[trigger] s@[j]),
        decreases n - i,
    {
        if !crate::text::char_is_whitespace(s.get_char(i)) {
            return false;
        }
        i = i + 1;
    }
    true
}

/// Is `value` a valid extension id (`segment.segment`, lower-case ASCII)?
pub fn is_valid_extension_id(value: &str) -> (r: bool)
    ensures
        r == valid_extension_id(value@),
{
    let n = value.unicode_len();
    let ghost s = value@;
    let mut has_dot = false;
    let mut i: usize = 0;
    while i < n
        invariant
            0 <= i <= n == s.len(),
            s == value@,
            has_dot == exists|j: int| 0 <= j < i && s[j] == '.',
            forall|j: int| 0 <= j < i ==> is_id_char(#[trigger] s[j], true),
            forall|j: int| 0 <= j < i - 1 ==> !(#[trigger] s[j] == '.' && s[j + 1] == '.'),
            i > 0 ==> s[0] != '.',
        decreases n - i,
    {
        let c = value.get_char(i);
        if !(('a' <= c && c <= 'z') || ('0' <= c && c <= '9') || c == '_' || c == '.') {
            assert(!is_id_char(s[i as int], true));
            return false;
        }
        if c == '.' {
            if i > 0 && value.get_char(i - 1) == '.' {
                assert(s[i - 1] == '.' && s[(i - 1) + 1] == '.');
                return false;
            }
            if i == 0 {
                return false;
            }
            has_dot = true;
        }
        i = i + 1;
    }
    if !has_dot {
        return false;
    }
    if value.get_char(n - 1) == '.' {
        return false;
    }
    true
}

/// Is `value` a valid command id (non-empty, lower-case ASCII, digits, `_`)?
pub fn is_valid_command_id(value: &str) -> (r: bool)
    ensures
        r == valid_command_id(value@),
{
    let n = value.unicode_len();
    if n == 0 {
        return false;
    }
    let mut i: usize = 0;
    while i < n
        invariant
            0 <= i <= n == value@.len(),
            forall|j: int| 0 <= j < i ==> is_id_char(#[trigger] value@[j], false),
        decreases n - i,
    {
        let c = value.get_char(i);
        if !(('a' <= c && c <= 'z') || ('0' <= c && c <= '9') || c == '_') {
            assert(!is_id_char(value@[i as int], false));
            return false;
        }
        i = i + 1;
    }
    true
}

impl ExtensionManifest {
    /// Checks the manifest: a valid id, a version, a description, and at
    /// least one command, each valid and declared once.
    pub fn validate(&self) -> (r: Result<(), ManifestError>)
        ensures
            r == manifest_verdict(*self),
    {
        if !is_valid_extension_id(self.id.as_str()) {
            return Err(ManifestError::InvalidExtensionId);
        }
        if is_blank(self.version.as_str()) {
            return Err(ManifestError::MissingVersion);
        }
        if is_blank(self.description.as_str()) {
            return Err(ManifestError::MissingDescription);
        }
        let n = self.commands.len();
        if n == 0 {
            return Err(ManifestError::NoCommands);
        }
        let ghost cv = command_views(self.commands@);
        let mut i: usize = 0;
        while i < n
            invariant
                0 <= i <= n == self.commands@.len(),
                cv == command_views(self.commands@),
                cv.len() == n,
                first_bad_command(cv, i as int) is None,
                valid_extension_id(self.id@),
                !blank(self.version@),
                !blank(self.description@),
            decreases n - i,
        {
            let cmd = self.commands[i].as_str();
            assert(cv[i as int] == self.commands@[i as int]@);
            if !is_valid_command_id(cmd) {
                proof {
                    lemma_first_bad_stable(cv, i + 1, n as int);
                }
                return Err(ManifestError::InvalidCommandId(i));
            }
            let mut j: usize = 0;
            while j < i
                invariant
                    0 <= j <= i < n == self.commands@.len(),
                    cv == command_views(self.commands@),
                    cv.len() == n,
                    cmd@ == cv[i as int],
                    forall|k: int| 0 <= k < j ==> cv[k] != cv[i as int],
                    first_bad_command(cv, i as int) is None,
                    valid_command_id(cv[i as int]),
                    valid_extension_id(self.id@),
                    !blank(self.version@),
                    !blank(self.description@),
                decreases i - j,
            {
                if str_eq(self.commands[j].as_str(), cmd) {
                    assert(cv[j as int] == self.commands@[j as int]@);
                    assert(cv[j as int] == cv[i as int]);
                    proof {
                        lemma_first_bad_stable(cv, i + 1, n as int);
                    }
                    return Err(ManifestError::DuplicateCommand(i));
                }
                j = j + 1;
            }
            i = i + 1;
        }
        Ok(())
    }

    /// Does the manifest declare `command_id`?
    pub fn supports_command(&self, command_id: &str) -> (r: bool)
        ensures
            r == exists|i: int| 0 <= i < self.commands@.len() && self.commands@[i]@ == command_id@,
    {
        let mut i: usize = 0;
        while i < self.commands.len()
            invariant
                0 <= i <= self.commands@.len(),
                forall|j: int| 0 <= j < i ==> self.commands@[j]@ != command_id@,
            decreases self.commands@.len() - i,
        {
            if str_eq(self.commands[i].as_str(), command_id) {
                return true;
            }
            i = i + 1;
        }
        false
    }
}

/// The message of a refused dependency.
pub open spec fn dependency_message(k: ExtensionDependencyKey) -> Seq<char> {
    "Extension dependency '"@ + k.name() + "' is not granted"@
}

/// The message the app shows when an extension asks for a dependency it
/// was not granted.
pub fn dependency_error_message(k: ExtensionDependencyKey) -> (r: String)
    ensures
        r@ == dependency_message(k),
{
    let mut s = String::from_str("Extension dependency '");
    s.append(k.as_str());
    s.append("' is not granted");
    s
}

/// A dependency that an extension asked for and was not granted.
#[derive(Debug, PartialEq, Eq)]
pub struct DependencyDenied {
    pub kind: ErrorKind,
    pub message: String,
}

/// Whether an extension that has been granted `allowed` may reach
/// `dependency`; when it may not, a permission error that names it.
pub fn ensure_allowed(allowed: &[ExtensionDependencyKey], dependency: ExtensionDependencyKey) -> (r: Result<
    (),
    DependencyDenied,
>)
    ensures
        r is Ok <==> allowed@.contains(dependency),
        r matches Err(e) ==> e.kind == ErrorKind::Permission && e.message@ == dependency_message(dependency),
{
    let mut i: usize = 0;
    while i < allowed.len()
        invariant
            0 <= i <= allowed@.len(),
            forall|j: int| 0 <= j < i ==> allowed@[j] != dependency,
        decreases allowed@.len() - i,
    {
        if allowed[i] == dependency {
            return Ok(());
        }
        i = i + 1;
    }
    Err(DependencyDenied { kind: ErrorKind::Permission, message: dependency_error_message(dependency) })
}

/// Why a registration or a lookup is refused.
#[derive(Debug, Clone, Copy, PartialEq, Eq)]
pub enum RegistryError {
    InvalidManifest(ManifestError),
    DuplicateExtension,
    UnknownExtension,
    UnknownCommand,
}

/// The registered extensions, each with its manifest.
pub struct ExtensionRegistry<E> {
    extensions: Vec<(ExtensionManifest, E)>,
}

impl<E> ExtensionRegistry<E> {
    /// The registered manifests, in registration order.
    pub closed spec fn manifests(&self) -> Seq<ExtensionManifest> {
        self.extensions@.map_values(|e: (ExtensionManifest, E)| e.0)
    }

    pub closed spec fn extension_at(&self, i: int) -> E {
        self.extensions@[i].1
    }

    /// The position of the extension registered as `id`.
    pub open spec fn index_of(&self, id: Seq<char>) -> Option<int> {
        if exists|i: int| 0 <= i < self.manifests().len() && #[trigger] self.manifests()[i].id@ == id {
            Some(choose|i: int| 0 <= i < self.manifests().len() && #[trigger] self.manifests()[i].id@ == id)
        } else {
            None
        }
    }

    /// No two extensions share an id.
    pub open spec fn ids_unique(&self) -> bool {
        forall|i: int, j: int|
            0 <= i < j < self.manifests().len() ==> #[trigger] self.manifests()[i].id@ != #[trigger] self.manifests()[j].id@
    }

    /// Every registry keeps its ids unique.
    #[verifier::type_invariant]
    spec fn registry_inv(&self) -> bool {
        self.ids_unique()
    }

    pub fn new() -> (r: Self)
        ensures
            r.manifests() == Seq::<ExtensionManifest>::empty(),
            r.ids_unique(),
    {
        let r = ExtensionRegistry { extensions: Vec::new() };
        assert(r.manifests() =~= Seq::<ExtensionManifest>::empty());
        r
    }

    fn find(&self, id: &str) -> (r: Option<usize>)
        ensures
            match r {
                Some(i) => i < self.manifests().len() && self.manifests()[i as int].id@ == id@,
                None => forall|i: int| 0 <= i < self.manifests().len() ==> #[trigger] self.manifests()[i].id@ != id@,
            },
    {
        let mut i: usize = 0;
        while i < self.extensions.len()
            invariant
                0 <= i <= self.extensions@.len(),
                self.manifests().len() == self.extensions@.len(),
                forall|j: int| 0 <= j < i ==> #[trigger] self.manifests()[j].id@ != id@,
            decreases self.extensions@.len() - i,
        {
            assert(self.manifests()[i as int] == self.extensions@[i as int].0);
            if str_eq(self.extensions[i].0.id.as_str(), id) {
                return Some(i);
            }
            i = i + 1;
        }
        None
    }

    /// Registers `extension` under its manifest, which must be valid and
    /// carry an id not registered yet.
    pub fn register(&mut self, manifest: ExtensionManifest, extension: E) -> (r: Result<(), RegistryError>)
        ensures
            match manifest_verdict(manifest) {
                Err(e) => r == Err::<(), RegistryError>(RegistryError::InvalidManifest(e)) && final(self).manifests()
                    == old(self).manifests(),
                Ok(()) => if old(self).index_of(manifest.id@) is Some {
                    r == Err::<(), RegistryError>(RegistryError::DuplicateExtension) && final(self).manifests()
                        == old(self).manifests()
                } else {
                    r is Ok && final(self).manifests() == old(self).manifests().push(manifest)
                        && final(self).extension_at(old(self).manifests().len() as int) == extension
                },
            },
            final(self).ids_unique(),
            forall|i: int| 0 <= i < old(self).manifests().len() ==> final(self).extension_at(i) == old(self).extension_at(i),
    {
        proof {
            use_type_invariant(&*self);
        }
        if let Err(e) = manifest.validate() {
            return Err(RegistryError::InvalidManifest(e));
        }
        if let Some(i) = self.find(manifest.id.as_str()) {
            return Err(RegistryError::DuplicateExtension);
        }
        let ghost pre = self.extensions@;
        let ghost m = manifest;
        let mut list: Vec<(ExtensionManifest, E)> = Vec::new();
        std::mem::swap(&mut list, &mut self.extensions);
        list.push((manifest, extension));
        let ghost ms = list@.map_values(|e: (ExtensionManifest, E)| e.0);
        assert(ms =~= old(self).manifests().push(m));
        assert forall|i: int, j: int| 0 <= i < j < ms.len() implies #[trigger] ms[i].id@ != #[trigger] ms[j].id@ by {
            if j == ms.len() - 1 {
                assert(ms[i] == old(self).manifests()[i]);
            } else {
                assert(ms[i] == old(self).manifests()[i] && ms[j] == old(self).manifests()[j]);
            }
        }
        self.extensions = list;
        assert(self.manifests() =~= old(self).manifests().push(m));
        proof {
            if !(exists|i: int| 0 <= i < old(self).manifests().len() && #[trigger] old(self).manifests()[i].id@ == m.id@) {
            }
        }
        Ok(())
    }

    /// The extension registered as `extension_id`, provided its manifest
    /// declares `command_id`.
    pub fn lookup_extension(&self, extension_id: &str, command_id: &str) -> (r: Result<&E, RegistryError>)
        ensures
            match self.index_of(extension_id@) {
                None => r == Err::<&E, RegistryError>(RegistryError::UnknownExtension),
                Some(i) => if exists|c: int|
                    0 <= c < self.manifests()[i].commands@.len() && self.manifests()[i].commands@[c]@ == command_id@ {
                    r matches Ok(e) && *e == self.extension_at(i)
                } else {
                    r == Err::<&E, RegistryError>(RegistryError::UnknownCommand)
                },
            },
    {
        proof {
            use_type_invariant(self);
        }
        match self.find(extension_id) {
            None => Err(RegistryError::UnknownExtension),
            Some(i) => {
                proof {
                    let k = choose|k: int| 0 <= k < self.manifests().len() && #[trigger] self.manifests()[k].id@ == extension_id@;
                    if k != i {
                        if k < i {
                            assert(self.manifests()[k].id@ != self.manifests()[i as int].id@);
                        } else {
                            assert(self.manifests()[i as int].id@ != self.manifests()[k].id@);
                        }
                    }
                    assert(self.manifests()[i as int] == self.extensions@[i as int].0);
                }
                let entry = &self.extensions[i];
                if entry.0.supports_command(command_id) {
                    Ok(&entry.1)
                } else {
                    Err(RegistryError::UnknownCommand)
                }
            },
        }
    }
}

/// Ids are listed in `String` order.
pub open spec fn sorted_ids(s: Seq<String>) -> bool {
    forall|i: int| 0 <= i < s.len() - 1 ==> #[trigger] lex_lt(s[i]@, s[i + 1]@) || s[i]@ == s[i + 1]@
}

/// Every manifest's id is listed.
pub open spec fn lists_every_id(ms: Seq<ExtensionManifest>, ids: Seq<String>) -> bool {
    forall|a: int| #![trigger ms[a]] 0 <= a < ms.len() ==> exists|j: int| 0 <= j < ids.len() && #[trigger] ids[j]@ == ms[a].id@
}

/// Only manifests' ids are listed.
pub open spec fn lists_only_ids(ms: Seq<ExtensionManifest>, ids: Seq<String>) -> bool {
    forall|j: int| #![trigger ids[j]] 0 <= j < ids.len() ==> exists|a: int| 0 <= a < ms.len() && #[trigger] ms[a].id@ == ids[j]@
}

/// No id is listed twice.
pub open spec fn distinct_ids(s: Seq<String>) -> bool {
    forall|i: int, j: int| 0 <= i < j < s.len() ==> (#[trigger] s[i])@ != (#[trigger] s[j])@
}

/// Inserts `x` into the sorted `v`, before the first id that comes after it.
fn insert_sorted(v: &mut Vec<String>, x: String)
    requires
        sorted_ids(old(v)@),
    ensures
        sorted_ids(final(v)@),
        distinct_ids(old(v)@) && (forall|i: int| 0 <= i < old(v)@.len() ==> (#[trigger] old(v)@[i])@ != x@)
            ==> distinct_ids(final(v)@),
        final(v)@.len() == old(v)@.len() + 1,
        forall|i: int| 0 <= i < old(v)@.len() ==> #[trigger] final(v)@.contains(old(v)@[i]),
        final(v)@.contains(x),
        forall|i: int| 0 <= i < final(v)@.len() ==> old(v)@.contains(#[trigger] final(v)@[i]) || final(v)@[i] == x,
{
    let n = v.len();
    let mut k: usize = 0;
    let mut stop = false;
    while k < n && !stop
        invariant
            0 <= k <= n == v@.len(),
            v@ == old(v)@,
            forall|j: int| 0 <= j < k ==> !lex_lt(x@, #[trigger] v@[j]@),
            stop ==> k < n && lex_lt(x@, v@[k as int]@),
        decreases n - k + (if stop { 0int } else { 1int }),
    {
        if str_lt(x.as_str(), v[k].as_str()) {
            stop = true;
        } else {
            k = k + 1;
        }
    }
    let ghost pre = v@;
    let ghost xv = x;
    v.insert(k, x);
    proof {
        assert(v@ =~= pre.subrange(0, k as int).push(xv) + pre.subrange(k as int, n as int));
        assert forall|i: int| 0 <= i < v@.len() - 1 implies #[trigger] lex_lt(v@[i]@, v@[i + 1]@) || v@[i]@
            == v@[i + 1]@ by {
            if i + 1 < k {
                assert(v@[i] == pre[i] && v@[i + 1] == pre[i + 1]);
                assert(lex_lt(pre[i]@, pre[i + 1]@) || pre[i]@ == pre[i + 1]@);
            } else if i + 1 == k {
                lemma_lex_total(pre[i]@, xv@);
                assert(!lex_lt(xv@, pre[i]@));
            } else if i == k {
                assert(lex_lt(xv@, pre[k as int]@));
            } else {
                assert(v@[i] == pre[i - 1] && v@[i + 1] == pre[i]);
                assert(lex_lt(pre[i - 1]@, pre[(i - 1) + 1]@) || pre[i - 1]@ == pre[(i - 1) + 1]@);
            }
        }
        assert forall|i: int| 0 <= i < pre.len() implies #[trigger] v@.contains(pre[i]) by {
            if i < k {
                assert(v@[i] == pre[i]);
            } else {
                assert(v@[i + 1] == pre[i]);
            }
        }
        assert(v@[k as int] == xv);
        assert forall|i: int| 0 <= i < v@.len() implies pre.contains(#[trigger] v@[i]) || v@[i] == xv by {
            if i < k {
                assert(v@[i] == pre[i]);
            } else if i > k {
                assert(v@[i] == pre[i - 1]);
            }
        }
        if distinct_ids(pre) && (forall|i: int| 0 <= i < pre.len() ==> (#[trigger] pre[i])@ != xv@) {
            assert forall|i: int, j: int| 0 <= i < j < v@.len() implies (#[trigger] v@[i])@ != (#[trigger] v@[j])@ by {
                let pi = if i < k { i } else { i - 1 };
                let pj = if j < k { j } else { j - 1 };
                if i == k {
                    assert(v@[j] == pre[pj]);
                    assert(pre[pj]@ != xv@);
                } else if j == k {
                    assert(v@[i] == pre[pi]);
                    assert(pre[pi]@ != xv@);
                } else {
                    assert(v@[i] == pre[pi] && v@[j] == pre[pj]);
                    assert(pre[pi]@ != pre[pj]@);
                }
            }
        }
    }
}

proof fn lemma_ids_step(ms: Seq<ExtensionManifest>, i: int, before: Seq<String>, after: Seq<String>, x: String)
    requires
        0 <= i < ms.len(),
        x@ == ms[i].id@,
        lists_every_id(ms.subrange(0, i), before),
        lists_only_ids(ms.subrange(0, i), before),
        forall|k: int| 0 <= k < before.len() ==> #[trigger] after.contains(before[k]),
        after.contains(x),
        forall|k: int| 0 <= k < after.len() ==> before.contains(#[trigger] after[k]) || after[k] == x,
    ensures
        lists_every_id(ms.subrange(0, i + 1), after),
        lists_only_ids(ms.subrange(0, i + 1), after),
{
    let p = ms.subrange(0, i);
    let q = ms.subrange(0, i + 1);
    assert forall|a: int| #![trigger q[a]] 0 <= a < q.len() implies exists|j: int|
        0 <= j < after.len() && #[trigger] after[j]@ == q[a].id@ by {
        if a < i {
            assert(q[a] == p[a]);
            let m = p[a];
            let j0 = choose|j: int| 0 <= j < before.len() && #[trigger] before[j]@ == m.id@;
            assert(after.contains(before[j0]));
            let j1 = choose|j: int| 0 <= j < after.len() && after[j] == before[j0];
            assert(after[j1]@ == q[a].id@);
        } else {
            let j1 = choose|j: int| 0 <= j < after.len() && after[j] == x;
            assert(after[j1]@ == q[a].id@);
        }
    }
    assert forall|j: int| #![trigger after[j]] 0 <= j < after.len() implies exists|a: int|
        0 <= a < q.len() && #[trigger] q[a].id@ == after[j]@ by {
        if after[j] == x {
            assert(q[i].id@ == after[j]@);
        } else {
            assert(before.contains(after[j]));
            let j0 = choose|j0: int| 0 <= j0 < before.len() && before[j0] == after[j];
            let o = before[j0];
            let a = choose|a: int| 0 <= a < p.len() && #[trigger] p[a].id@ == o@;
            assert(q[a] == p[a]);
            assert(q[a].id@ == after[j]@);
        }
    }
}

impl<E> ExtensionRegistry<E> {
    /// The registered ids, in strictly ascending `String` order.
    pub fn ids(&self) -> (r: Vec<String>)
        ensures
            sorted_ids(r@),
            forall|i: int| 0 <= i < r@.len() - 1 ==> #[trigger] lex_lt(r@[i]@, r@[i + 1]@),
            r@.len() == self.manifests().len(),
            lists_every_id(self.manifests(), r@),
            lists_only_ids(self.manifests(), r@),
    {
        proof {
            use_type_invariant(self);
        }
        let ghost ms = self.manifests();
        let mut out: Vec<String> = Vec::new();
        let mut i: usize = 0;
        while i < self.extensions.len()
            invariant
                0 <= i <= self.extensions@.len(),
                ms == self.manifests(),
                ms.len() == self.extensions@.len(),
                self.ids_unique(),
                sorted_ids(out@),
                distinct_ids(out@),
                out@.len() == i,
                lists_every_id(ms.subrange(0, i as int), out@),
                lists_only_ids(ms.subrange(0, i as int), out@),
            decreases self.extensions@.len() - i,
        {
            assert(ms[i as int] == self.extensions@[i as int].0);
            let id = self.extensions[i].0.id.clone();
            let ghost before = out@;
            proof {
                assert forall|k: int| 0 <= k < before.len() implies (#[trigger] before[k])@ != id@ by {
                    let q = ms.subrange(0, i as int);
                    let a = choose|a: int| 0 <= a < q.len() && #[trigger] q[a].id@ == before[k]@;
                    assert(q[a] == ms[a]);
                    assert(ms[a].id@ != ms[i as int].id@);
                }
            }
            insert_sorted(&mut out, id);
            proof {
                lemma_ids_step(ms, i as int, before, out@, id);
            }
            i = i + 1;
        }
        assert(ms.subrange(0, i as int) =~= ms);
        assert forall|k: int| 0 <= k < out@.len() - 1 implies #[trigger] lex_lt(out@[k]@, out@[k + 1]@) by {
            assert(lex_lt(out@[k]@, out@[k + 1]@) || out@[k]@ == out@[k + 1]@);
            assert(out@[k]@ != out@[k + 1]@);
        }
        out
    }

    /// The extension registered as `extension_id`.
    pub fn get(&self, extension_id: &str) -> (r: Option<&E>)
        ensures
            match self.index_of(extension_id@) {
                None => r is None,
                Some(i) => r == Some(&self.extension_at(i)),
            },
    {
        proof {
            use_type_invariant(self);
        }
        match self.find(extension_id) {
            None => None,
            Some(i) => {
                proof {
                    let k = choose|k: int| 0 <= k < self.manifests().len() && #[trigger] self.manifests()[k].id@ == extension_id@;
                    if k != i {
                        if k < i {
                            assert(self.manifests()[k].id@ != self.manifests()[i as int].id@);
                        } else {
                            assert(self.manifests()[i as int].id@ != self.manifests()[k].id@);
                        }
                    }
                }
                Some(&self.extensions[i].1)
            },
        }
    }
}

/// A registration is found again: when `register` adds `m` (its id was not
/// registered, so the manifests grow by `m`), the id of `m` now names the
/// new last position, so `get` and `lookup_extension` give the extension just
/// registered, and `ids()` lists `m`'s id with the earlier ones.
pub proof fn lemma_register_then_get<E>(before: ExtensionRegistry<E>, after: ExtensionRegistry<E>, m: ExtensionManifest)
    requires
        before.index_of(m.id@) is None,
        after.manifests() == before.manifests().push(m),
        after.ids_unique(),
    ensures
        after.index_of(m.id@) == Some(before.manifests().len() as int),
{
    let n = before.manifests().len() as int;
    assert(after.manifests()[n].id@ == m.id@);
    let k = choose|k: int| 0 <= k < after.manifests().len() && #[trigger] after.manifests()[k].id@ == m.id@;
    if k != n {
        assert(after.manifests()[k] == before.manifests()[k]);
        assert(before.manifests()[k].id@ == m.id@);
    }
}

/// The kind of an extension error, as the app reports it.
#[derive(Debug, Clone, Copy, PartialEq, Eq, Structural)]
pub enum ErrorKind {
    InvalidInput,
    Conflict,
    NotFound,
    Permission,
}

/// The kind of a registry error: a refused manifest is invalid input, a
/// second registration of an id a conflict, an unknown extension or command
/// not found.
pub fn registry_error_kind(e: &RegistryError) -> (r: ErrorKind)
    ensures
        r == (match *e {
            RegistryError::InvalidManifest(_) => ErrorKind::InvalidInput,
            RegistryError::DuplicateExtension => ErrorKind::Conflict,
            RegistryError::UnknownExtension => ErrorKind::NotFound,
            RegistryError::UnknownCommand => ErrorKind::NotFound,
        }),
{
    match e {
        RegistryError::InvalidManifest(_) => ErrorKind::InvalidInput,
        RegistryError::DuplicateExtension => ErrorKind::Conflict,
        RegistryError::UnknownExtension => ErrorKind::NotFound,
        RegistryError::UnknownCommand => ErrorKind::NotFound,
    }
}

/// The message of a refused manifest.
pub open spec fn manifest_message(m: ExtensionManifest, e: ManifestError) -> Seq<char> {
    match e {
        ManifestError::InvalidExtensionId => "Invalid extension id '"@ + m.id@
            + "': expected segment.segment with lowercase ascii"@,
        ManifestError::MissingVersion => "Extension '"@ + m.id@ + "' is missing version"@,
        ManifestError::MissingDescription => "Extension '"@ + m.id@ + "' is missing description"@,
        ManifestError::NoCommands => "Extension '"@ + m.id@ + "' must declare at least one command"@,
        ManifestError::InvalidCommandId(i) => "Invalid command id '"@ + m.commands@[i as int]@ + "' in extension '"@
            + m.id@ + "'"@,
        ManifestError::DuplicateCommand(i) => "Duplicate command '"@ + m.commands@[i as int]@ + "' in extension '"@
            + m.id@ + "'"@,
    }
}

/// The message that says why `m` was refused with `e`.
pub fn manifest_error_message(m: &ExtensionManifest, e: ManifestError) -> (r: String)
    requires
        e matches ManifestError::InvalidCommandId(i) ==> i < m.commands@.len(),
        e matches ManifestError::DuplicateCommand(i) ==> i < m.commands@.len(),
    ensures
        r@ == manifest_message(*m, e),
{
    match e {
        ManifestError::InvalidExtensionId => {
            let mut s = String::from_str("Invalid extension id '");
            s.append(m.id.as_str());
            s.append("': expected segment.segment with lowercase ascii");
            s
        },
        ManifestError::MissingVersion => {
            let mut s = String::from_str("Extension '");
            s.append(m.id.as_str());
            s.append("' is missing version");
            s
        },
        ManifestError::MissingDescription => {
            let mut s = String::from_str("Extension '");
            s.append(m.id.as_str());
            s.append("' is missing description");
            s
        },
        ManifestError::NoCommands => {
            let mut s = String::from_str("Extension '");
            s.append(m.id.as_str());
            s.append("' must declare at least one command");
            s
        },
        ManifestError::InvalidCommandId(i) => {
            let mut s = String::from_str("Invalid command id '");
            s.append(m.commands[i].as_str());
            s.append("' in extension '");
            s.append(m.id.as_str());
            s.append("'");
            s
        },
        ManifestError::DuplicateCommand(i) => {
            let mut s = String::from_str("Duplicate command '");
            s.append(m.commands[i].as_str());
            s.append("' in extension '");
            s.append(m.id.as_str());
            s.append("'");
            s
        },
    }
}

/// The message of a registry error about extension `extension_id` (the
/// manifest's id for a registration) and command `command_id`; for a
/// refused manifest, the manifest's message.
pub open spec fn registry_message(m: ExtensionManifest, extension_id: Seq<char>, command_id: Seq<char>, e: RegistryError) -> Seq<char> {
    match e {
        RegistryError::InvalidManifest(me) => manifest_message(m, me),
        RegistryError::DuplicateExtension => "Duplicate extension id '"@ + extension_id + "'"@,
        RegistryError::UnknownExtension => "Unknown extension '"@ + extension_id + "'"@,
        RegistryError::UnknownCommand => "Unknown extension command '"@ + extension_id + "."@ + command_id + "'"@,
    }
}

/// The message the app shows for a registry error.
pub fn registry_error_message(m: &ExtensionManifest, extension_id: &str, command_id: &str, e: RegistryError) -> (r: String)
    requires
        e matches RegistryError::InvalidManifest(me) ==> (me matches ManifestError::InvalidCommandId(i) ==> i
            < m.commands@.len()) && (me matches ManifestError::DuplicateCommand(i) ==> i < m.commands@.len()),
    ensures
        r@ == registry_message(*m, extension_id@, command_id@, e),
{
    match e {
        RegistryError::InvalidManifest(me) => manifest_error_message(m, me),
        RegistryError::DuplicateExtension => {
            let mut s = String::from_str("Duplicate extension id '");
            s.append(extension_id);
            s.append("'");
            s
        },
        RegistryError::UnknownExtension => {
            let mut s = String::from_str("Unknown extension '");
            s.append(extension_id);
            s.append("'");
            s
        },
        RegistryError::UnknownCommand => {
            let mut s = String::from_str("Unknown extension command '");
            s.append(extension_id);
            s.append(".");
            s.append(command_id);
            s.append("'");
            s
        },
    }
}

/// Manifests show a frontend unless they say otherwise.
pub fn default_frontend() -> (r: bool)
    ensures
        r,
{
    true
}

/// Invocation details handed to an extension.
#[derive(Debug, Clone, Default, PartialEq, Eq)]
pub struct InvocationMeta {
    pub window_label: Option<String>,
}

/// Host services that extensions reach through their context.
pub trait UiEventsPort: Send + Sync {}

pub trait UploadPort: Send + Sync {}

pub trait DownloadPort: Send + Sync {}

pub trait PlaybackPort: Send + Sync {}

pub trait SettingsPort: Send + Sync {}

pub trait PluginsPort: Send + Sync {}

pub trait FeatureLogsPort: Send + Sync {}

pub struct UiEventsPortAdapter;

impl UiEventsPort for UiEventsPortAdapter {}

pub struct UploadPortAdapter;

impl UploadPort for UploadPortAdapter {}

pub struct DownloadPortAdapter;

impl DownloadPort for DownloadPortAdapter {}

pub struct PlaybackPortAdapter;

impl PlaybackPort for PlaybackPortAdapter {}

pub struct SettingsPortAdapter;

impl SettingsPort for SettingsPortAdapter {}

pub struct PluginsPortAdapter;

impl PluginsPort for PluginsPortAdapter {}

pub struct FeatureLogsPortAdapter;

impl FeatureLogsPort for FeatureLogsPortAdapter {}

/// Law: a command id is valid exactly when it is non-empty and each of its
/// characters, at any position, is an ASCII lower-case letter, an ASCII
/// digit or `_`.
pub proof fn lemma_command_id_characters(s: Seq<char>)
    ensures
        valid_command_id(s) <==> (s.len() > 0 && forall|i: int|
            0 <= i < s.len() ==> ('a' <= #[trigger] s[i] <= 'z' || '0' <= s[i] <= '9' || s[i] == '_')),
{
    if s.len() > 0 {
        assert((forall|i: int| 0 <= i < s.len() ==> is_id_char(#[trigger] s[i], false)) <==> (forall|i: int|
            0 <= i < s.len() ==> ('a' <= #[trigger] s[i] <= 'z' || '0' <= s[i] <= '9' || s[i] == '_')));
    }
}

/// Law: an extension id is valid exactly when it has a dot, does not start
/// or end with one, has no two dots in a row, and each character is an
/// ASCII lower-case letter, an ASCII digit, `_` or `.`.
pub proof fn lemma_extension_id_characters(s: Seq<char>)
    ensures
        valid_extension_id(s) <==> {
            &&& exists|i: int| 0 <= i < s.len() && s[i] == '.'
            &&& !(s.len() > 0 && s[0] == '.')
            &&& !(s.len() > 0 && s[s.len() - 1] == '.')
            &&& forall|i: int| 0 <= i < s.len() - 1 ==> !(#[trigger] s[i] == '.' && s[i + 1] == '.')
            &&& forall|i: int|
                0 <= i < s.len() ==> ('a' <= #[trigger] s[i] <= 'z' || '0' <= s[i] <= '9' || s[i] == '_' || s[i]
                    == '.')
        },
{
    assert((forall|i: int| 0 <= i < s.len() ==> is_id_char(#[trigger] s[i], true)) <==> (forall|i: int|
        0 <= i < s.len() ==> ('a' <= #[trigger] s[i] <= 'z' || '0' <= s[i] <= '9' || s[i] == '_' || s[i] == '.')));
}

} // verus!
