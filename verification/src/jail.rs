//! The safety jail: which locations may never be cleaned.
//!
//! A path is judged by where it really leads: by its canonical location where
//! the file system could give one, and by its lexically resolved spelling
//! otherwise.

use crate::errors::SafetyError;
use crate::path::{
    absolute, anchor, body_comps, components, comps_have_parent, comps_view, has_parent, joined,
    law_parent, law_unix_components, law_unix_first_component, names_text, plain_name,
    lemma_body_steady, lemma_join_anchor, lemma_join_name, lemma_parent_name, lemma_spelled,
    lemma_unrooted, main_separator, parent_text, prefix_text, same_location, shows_root, spelled,
    steady, steady_comps, steady_name, steady_names, under, well_anchored, Comp, Component,
    PathBuf, Platform,
};
use crate::registry::{
    keep_present, lemma_present, present, spelling, spelling_list, spellings,
};
use crate::text::{chars_of, starts_with, starts_with_text, string_of, trim, trimmed};
use vstd::prelude::*;
use vstd::string::*;

verus! {

// ---------------------------------------------------------------------------
// System roots
// ---------------------------------------------------------------------------
/// Filesystem roots whose deletion (or wholesale clearing) is never allowed.
pub open spec fn static_roots(p: Platform) -> Seq<Seq<char>> {
    if p.unix() {
        seq![
            "/"@,
            "/bin"@,
            "/sbin"@,
            "/usr"@,
            "/usr/bin"@,
            "/etc"@,
            "/lib"@,
            "/boot"@,
            "/dev"@,
            "/sys"@,
            "/proc"@,
            "/var"@,
        ]
    } else {
        seq![
            "C:\\"@,
            "C:\\Windows"@,
            "C:\\Program Files"@,
            "C:\\Program Files (x86)"@,
        ]
    }
}

/// The paths of [`static_roots`].
pub fn static_system_roots(p: Platform) -> (out: Vec<PathBuf>)
    ensures
        spellings(out@) == static_roots(p),
{
    let mut out: Vec<PathBuf> = Vec::new();
    if p.is_unix() {
        out.push(PathBuf::new("/"));
        out.push(PathBuf::new("/bin"));
        out.push(PathBuf::new("/sbin"));
        out.push(PathBuf::new("/usr"));
        out.push(PathBuf::new("/usr/bin"));
        out.push(PathBuf::new("/etc"));
        out.push(PathBuf::new("/lib"));
        out.push(PathBuf::new("/boot"));
        out.push(PathBuf::new("/dev"));
        out.push(PathBuf::new("/sys"));
        out.push(PathBuf::new("/proc"));
        out.push(PathBuf::new("/var"));
    } else {
        out.push(PathBuf::new("C:\\"));
        out.push(PathBuf::new("C:\\Windows"));
        out.push(PathBuf::new("C:\\Program Files"));
        out.push(PathBuf::new("C:\\Program Files (x86)"));
    }
    assert(spellings(out@) =~= static_roots(p));
    out
}

/// The Windows environment variables that tell where the system lives.
#[derive(Debug)]
pub struct WindowsVariables {
    pub system_drive: Option<String>,
    pub system_root: Option<String>,
    pub windir: Option<String>,
    pub program_files: Option<String>,
    pub program_files_x86: Option<String>,
    pub program_w6432: Option<String>,
}

/// A boot drive, normalized `C:` -> `C:\`; a blank one means `C:`.
pub open spec fn drive_root(drive: Seq<char>) -> Seq<char> {
    let t = trimmed(drive);
    let named = if t.len() == 0 {
        "C:"@
    } else {
        t
    };
    if named.last() == '\\' {
        named
    } else {
        named.push('\\')
    }
}

/// The directory that a variable names, unless it is unset or blank.
pub open spec fn named_dir(value: Option<String>) -> Option<Seq<char>> {
    match value {
        Some(value) => if trimmed(value@).len() == 0 {
            None
        } else {
            Some(trimmed(value@))
        },
        None => None,
    }
}

impl WindowsVariables {
    /// The boot drive and its OS directory.
    pub open spec fn drive_roots(self) -> Seq<Seq<char>> {
        match self.system_drive {
            Some(drive) => seq![
                drive_root(drive@),
                joined(Platform::Windows, drive_root(drive@), "Windows"@),
            ],
            None => Seq::empty(),
        }
    }

    /// The system locations that these variables name: the active boot drive,
    /// the OS directory and the program-install trees.
    pub open spec fn roots(self) -> Seq<Seq<char>> {
        self.drive_roots() + present(
            seq![
                named_dir(self.system_root),
                named_dir(self.windir),
                named_dir(self.program_files),
                named_dir(self.program_files_x86),
                named_dir(self.program_w6432),
            ],
        )
    }
}

fn named_directory(value: &Option<String>) -> (out: Option<PathBuf>)
    ensures
        spelling(out) == named_dir(*value),
{
    match value {
        Some(value) => {
            let t = trim(&chars_of(value.as_str()));
            if t.len() == 0 {
                None
            } else {
                let text = string_of(&t, 0, t.len());
                assert(text@ =~= t@);
                Some(PathBuf { text })
            }
        },
        None => None,
    }
}

/// Windows locations discovered from the environment: boot drive, OS
/// directory and install trees may sit on any volume.
pub fn windows_dynamic_system_roots(vars: &WindowsVariables) -> (roots: Vec<PathBuf>)
    ensures
        spellings(roots@) == vars.roots(),
{
    let mut roots: Vec<PathBuf> = Vec::new();
    if let Some(drive) = &vars.system_drive {
        let t = trim(&chars_of(drive.as_str()));
        let mut text = if t.len() == 0 {
            "C:".to_owned()
        } else {
            string_of(&t, 0, t.len())
        };
        proof {
            reveal_strlit("C:");
            assert(t@.len() > 0 ==> text@ =~= t@);
        }
        let chars = chars_of(text.as_str());
        if chars[chars.len() - 1] != '\\' {
            text.push('\\');
        }
        let root = PathBuf { text };
        assert(root@ == drive_root(drive@));
        let os = root.join("Windows", Platform::Windows);
        roots.push(root);
        roots.push(os);
    }
    assert(spellings(roots@) =~= vars.drive_roots());
    let mut named: Vec<Option<PathBuf>> = Vec::new();
    named.push(named_directory(&vars.system_root));
    named.push(named_directory(&vars.windir));
    named.push(named_directory(&vars.program_files));
    named.push(named_directory(&vars.program_files_x86));
    named.push(named_directory(&vars.program_w6432));
    assert(spelling_list(named@) =~= seq![
        named_dir(vars.system_root),
        named_dir(vars.windir),
        named_dir(vars.program_files),
        named_dir(vars.program_files_x86),
        named_dir(vars.program_w6432),
    ]);
    let mut kept = keep_present(named);
    let ghost a = roots@;
    let ghost b = kept@;
    roots.append(&mut kept);
    assert(spellings(roots@) =~= spellings(a) + spellings(b));
    roots
}

/// The roots of `list`, each behind its canonical location where that is
/// known and differs.
pub open spec fn with_canonical(
    p: Platform,
    list: Seq<Seq<char>>,
    canonical: Seq<Option<Seq<char>>>,
) -> Seq<Seq<char>>
    decreases list.len(),
{
    if list.len() == 0 || canonical.len() != list.len() {
        Seq::empty()
    } else {
        let before = with_canonical(p, list.drop_last(), canonical.drop_last());
        match canonical.last() {
            Some(canon) => if same_location(p, canon, list.last()) {
                before.push(list.last())
            } else {
                before.push(canon).push(list.last())
            },
            None => before.push(list.last()),
        }
    }
}

/// The system roots of this machine: those that the Windows environment
/// names, then the fixed ones. `canonical` holds the canonical location of
/// each fixed root, in order, where the file system gave one: on macOS,
/// entries such as `/var` are symlinks into `/private`.
pub fn system_roots(
    p: Platform,
    vars: &WindowsVariables,
    canonical: &Vec<Option<PathBuf>>,
) -> (out: Vec<PathBuf>)
    requires
        canonical@.len() == static_roots(p).len(),
    ensures
        spellings(out@) == (if p == Platform::Windows {
            vars.roots()
        } else {
            Seq::empty()
        }) + with_canonical(p, static_roots(p), spelling_list(canonical@)),
{
    let mut out = if p == Platform::Windows {
        windows_dynamic_system_roots(vars)
    } else {
        Vec::new()
    };
    let ghost head = spellings(out@);
    let fixed = static_system_roots(p);
    let ghost list = spellings(fixed@);
    let ghost canons = spelling_list(canonical@);
    let mut i: usize = 0;
    assert(list.take(0) =~= Seq::empty());
    assert(spellings(out@) =~= head + with_canonical(p, list.take(0), canons.take(0)));
    while i < fixed.len()
        invariant
            i <= fixed@.len() == canonical@.len(),
            list == spellings(fixed@),
            canons == spelling_list(canonical@),
            spellings(out@) == head + with_canonical(p, list.take(i as int), canons.take(i as int)),
        decreases fixed.len() - i,
    {
        proof {
            assert(list.take(i + 1).drop_last() =~= list.take(i as int));
            assert(canons.take(i + 1).drop_last() =~= canons.take(i as int));
            assert(list.take(i + 1).last() == fixed@[i as int]@);
            assert(canons.take(i + 1).last() == spelling(canonical@[i as int]));
        }
        let ghost before = with_canonical(p, list.take(i as int), canons.take(i as int));
        let path = fixed[i].clone();
        if let Some(canon) = &canonical[i] {
            if !canon.same_as(&path, p) {
                let ghost prior = spellings(out@);
                out.push(canon.clone());
                assert(spellings(out@) =~= prior.push(canon@));
                assert(spellings(out@) =~= head + before.push(canon@));
            }
        }
        let ghost prior = spellings(out@);
        let ghost name = path@;
        out.push(path);
        assert(spellings(out@) =~= prior.push(name));
        assert(spellings(out@) =~= head + with_canonical(p, list.take(i + 1), canons.take(i + 1)));
        i += 1;
    }
    assert(list.take(list.len() as int) =~= list);
    assert(canons.take(canons.len() as int) =~= canons);
    out
}

// ---------------------------------------------------------------------------
// Cleanable temp areas
// ---------------------------------------------------------------------------
/// Volatile temp areas that stay cleanable even though they live beneath
/// otherwise-protected parents (`/var/tmp` sits under `/var`). Empty where no
/// such overlap exists (the Windows `%TEMP%` tree is outside the jail).
pub open spec fn static_temp(p: Platform) -> Seq<Seq<char>> {
    if p.unix() {
        seq!["/tmp"@, "/var/tmp"@]
    } else {
        Seq::empty()
    }
}

/// The paths of [`static_temp`].
pub fn static_temp_prefixes(p: Platform) -> (out: Vec<PathBuf>)
    ensures
        spellings(out@) == static_temp(p),
{
    let mut out: Vec<PathBuf> = Vec::new();
    if p.is_unix() {
        out.push(PathBuf::new("/tmp"));
        out.push(PathBuf::new("/var/tmp"));
    }
    assert(spellings(out@) =~= static_temp(p));
    out
}

/// The canonical location where it is known, the given one otherwise.
pub open spec fn resolved_or(canonical: Option<Seq<char>>, path: Seq<char>) -> Seq<char> {
    match canonical {
        Some(canon) => canon,
        None => path,
    }
}

/// Whether `s` is the directory that holds `home`.
pub open spec fn holds_home(p: Platform, home: Seq<char>, s: Seq<char>) -> bool {
    has_parent(p, home) && same_location(p, s, parent_text(p, home))
}

/// Whether a directory for temporary files may be trusted: one that is a bare
/// root, a system root, the home directory or the directory that holds all
/// homes would mark everything below it as cleanable.
pub open spec fn sane_temp(
    p: Platform,
    roots: Seq<Seq<char>>,
    home: Option<Seq<char>>,
    s: Seq<char>,
) -> bool {
    &&& has_parent(p, s)
    &&& forall|i: int| 0 <= i < roots.len() ==> !same_location(p, s, #[trigger] roots[i])
    &&& match home {
        Some(home) => !same_location(p, s, home) && !holds_home(p, home, s),
        None => true,
    }
}

/// The fixed temp areas, canonical where possible.
pub open spec fn fixed_temp(p: Platform, canonical: Seq<Option<Seq<char>>>) -> Seq<Seq<char>> {
    Seq::new(
        static_temp(p).len(),
        |i: int| resolved_or(canonical[i], static_temp(p)[i]),
    )
}

/// The temp areas: the fixed ones, then the OS-designated directory and its
/// canonical location as far as they may be trusted.
pub open spec fn temp_areas(
    p: Platform,
    roots: Seq<Seq<char>>,
    home: Option<Seq<char>>,
    canonical: Seq<Option<Seq<char>>>,
    os_temp: Seq<char>,
    os_canonical: Option<Seq<char>>,
) -> Seq<Seq<char>> {
    let fixed = fixed_temp(p, canonical);
    let designated = if sane_temp(p, roots, home, os_temp) {
        fixed.push(os_temp)
    } else {
        fixed
    };
    let canon = resolved_or(os_canonical, os_temp);
    let last = if designated.len() == 0 {
        Seq::empty()
    } else {
        designated.last()
    };
    if !same_location(p, canon, last) && sane_temp(p, roots, home, canon) {
        designated.push(canon)
    } else {
        designated
    }
}

fn is_same_as_any(path: &PathBuf, list: &Vec<PathBuf>, p: Platform) -> (yes: bool)
    ensures
        yes == exists|i: int|
            0 <= i < list@.len() && same_location(p, path@, #[trigger] spellings(list@)[i]),
{
    let mut i: usize = 0;
    while i < list.len()
        invariant
            i <= list@.len(),
            forall|j: int|
                0 <= j < i ==> !same_location(p, path@, #[trigger] spellings(list@)[j]),
        decreases list.len() - i,
    {
        if path.same_as(&list[i], p) {
            assert(spellings(list@)[i as int] == list@[i as int]@);
            return true;
        }
        i += 1;
    }
    false
}

fn is_sane_temp(p: Platform, roots: &Vec<PathBuf>, home: &Option<PathBuf>, path: &PathBuf) -> (yes:
    bool)
    ensures
        yes == sane_temp(p, spellings(roots@), spelling(*home), path@),
{
    if !path.has_parent(p) {
        return false;
    }
    if is_same_as_any(path, roots, p) {
        return false;
    }
    match home {
        Some(home) => {
            if path.same_as(home, p) {
                return false;
            }
            match home.parent(p) {
                Some(parent) => !path.same_as(&parent, p),
                None => true,
            }
        },
        None => true,
    }
}

/// The canonicalized fixed temp areas plus the OS-designated temp directory.
/// The latter matters because e.g. macOS `$TMPDIR` resolves into
/// `/var/folders/...`, outside the fixed `/var/tmp`.
///
/// `canonical` holds the canonical location of each fixed area, in order, and
/// `os_canonical` that of `os_temp`, where the file system gave one.
pub fn cleanable_temp_prefixes(
    p: Platform,
    roots: &Vec<PathBuf>,
    home: &Option<PathBuf>,
    canonical: &Vec<Option<PathBuf>>,
    os_temp: &PathBuf,
    os_canonical: &Option<PathBuf>,
) -> (prefixes: Vec<PathBuf>)
    requires
        canonical@.len() == static_temp(p).len(),
    ensures
        spellings(prefixes@) == temp_areas(
            p,
            spellings(roots@),
            spelling(*home),
            spelling_list(canonical@),
            os_temp@,
            spelling(*os_canonical),
        ),
{
    let ghost fixed = fixed_temp(p, spelling_list(canonical@));
    let mut prefixes: Vec<PathBuf> = Vec::new();
    let statics = static_temp_prefixes(p);
    let mut i: usize = 0;
    while i < statics.len()
        invariant
            i <= statics@.len() == canonical@.len() == fixed.len(),
            spellings(statics@) == static_temp(p),
            fixed == fixed_temp(p, spelling_list(canonical@)),
            spellings(prefixes@) == fixed.take(i as int),
        decreases statics.len() - i,
    {
        assert(static_temp(p)[i as int] == statics@[i as int]@);
        assert(spelling_list(canonical@)[i as int] == spelling(canonical@[i as int]));
        let next = match &canonical[i] {
            Some(canon) => canon.clone(),
            None => statics[i].clone(),
        };
        let ghost name = next@;
        assert(fixed[i as int] == name);
        prefixes.push(next);
        assert(spellings(prefixes@) =~= fixed.take(i as int).push(name));
        assert(spellings(prefixes@) =~= fixed.take(i + 1));
        i += 1;
    }
    assert(fixed.take(fixed.len() as int) =~= fixed);
    let canon_temp = match os_canonical {
        Some(canon) => canon.clone(),
        None => os_temp.clone(),
    };
    if is_sane_temp(p, roots, home, os_temp) {
        prefixes.push(os_temp.clone());
        assert(spellings(prefixes@) =~= fixed.push(os_temp@));
    }
    let ghost designated = spellings(prefixes@);
    let last = if prefixes.len() == 0 {
        PathBuf { text: String::new() }
    } else {
        prefixes[prefixes.len() - 1].clone()
    };
    assert(last@ =~= if designated.len() == 0 {
        Seq::empty()
    } else {
        designated.last()
    });
    if !canon_temp.same_as(&last, p) && is_sane_temp(p, roots, home, &canon_temp) {
        let ghost canon = canon_temp@;
        prefixes.push(canon_temp);
        assert(spellings(prefixes@) =~= designated.push(canon));
    }
    prefixes
}

// ---------------------------------------------------------------------------
// Personal data
// ---------------------------------------------------------------------------
/// The personal-data directories that the system knows of.
#[derive(Debug)]
pub struct UserDirectories {
    pub document: Option<PathBuf>,
    pub desktop: Option<PathBuf>,
    pub download: Option<PathBuf>,
    pub audio: Option<PathBuf>,
    pub picture: Option<PathBuf>,
    pub video: Option<PathBuf>,
}

impl UserDirectories {
    /// The directories that are known, in order.
    pub open spec fn known(self) -> Seq<Seq<char>> {
        present(
            seq![
                spelling(self.document),
                spelling(self.desktop),
                spelling(self.download),
                spelling(self.audio),
                spelling(self.picture),
                spelling(self.video),
            ],
        )
    }
}

/// The personal folders that every home has by custom.
pub open spec fn customary(p: Platform, home: Option<Seq<char>>) -> Seq<Seq<char>> {
    match home {
        Some(home) => seq![
            joined(p, home, "Documents"@),
            joined(p, home, "Desktop"@),
            joined(p, home, "Downloads"@),
            joined(p, home, "Music"@),
            joined(p, home, "Pictures"@),
            joined(p, home, "Videos"@),
        ],
        None => Seq::empty(),
    }
}

/// Personal-data directories that must never be touched (including their
/// contents): those that the system knows of, and the customary ones below
/// the home directory. Missing/unavailable dirs are skipped.
pub fn protected_user_dirs(p: Platform, home: &Option<PathBuf>, dirs: &UserDirectories) -> (out:
    Vec<PathBuf>)
    ensures
        spellings(out@) == dirs.known() + customary(p, spelling(*home)),
        dirs.document matches Some(dir) ==> spellings(out@).contains(dir@),
        dirs.desktop matches Some(dir) ==> spellings(out@).contains(dir@),
        dirs.download matches Some(dir) ==> spellings(out@).contains(dir@),
        dirs.audio matches Some(dir) ==> spellings(out@).contains(dir@),
        dirs.picture matches Some(dir) ==> spellings(out@).contains(dir@),
        dirs.video matches Some(dir) ==> spellings(out@).contains(dir@),
{
    let mut known: Vec<Option<PathBuf>> = Vec::new();
    known.push(dirs.document.clone());
    known.push(dirs.desktop.clone());
    known.push(dirs.download.clone());
    known.push(dirs.audio.clone());
    known.push(dirs.picture.clone());
    known.push(dirs.video.clone());
    assert(spelling_list(known@) =~= seq![
        spelling(dirs.document),
        spelling(dirs.desktop),
        spelling(dirs.download),
        spelling(dirs.audio),
        spelling(dirs.picture),
        spelling(dirs.video),
    ]);
    let mut out = keep_present(known);
    let ghost head = spellings(out@);
    if let Some(home) = home {
        out.push(home.join("Documents", p));
        out.push(home.join("Desktop", p));
        out.push(home.join("Downloads", p));
        out.push(home.join("Music", p));
        out.push(home.join("Pictures", p));
        out.push(home.join("Videos", p));
    }
    assert(spellings(out@) =~= head + customary(p, spelling(*home)));
    proof {
        law_personal_folders_listed(p, spelling(*home), *dirs);
    }
    out
}

// ---------------------------------------------------------------------------
// Verdicts
// ---------------------------------------------------------------------------
/// What the jail knows of this machine.
#[derive(Debug)]
pub struct JailContext {
    pub platform: Platform,
    /// See [`system_roots`].
    pub system_roots: Vec<PathBuf>,
    /// See [`cleanable_temp_prefixes`].
    pub temp_prefixes: Vec<PathBuf>,
    /// The home directory.
    pub home: Option<PathBuf>,
    /// See [`protected_user_dirs`].
    pub user_dirs: Vec<PathBuf>,
    /// The working directory, against which relative paths are read.
    pub current_dir: Option<PathBuf>,
}

/// Why a location is refused.
pub enum Refusal {
    System(Seq<char>),
    Home(Seq<char>),
    UserData(Seq<char>),
}

impl SafetyError {
    /// The refusal that this error reports, if it reports one.
    pub open spec fn refusal(self) -> Option<Refusal> {
        match self {
            SafetyError::ProtectedSystemPath(path) => Some(Refusal::System(path@)),
            SafetyError::ProtectedHomeRoot(path) => Some(Refusal::Home(path@)),
            SafetyError::ProtectedUserData(path) => Some(Refusal::UserData(path@)),
            _ => None,
        }
    }
}

/// The refusal that a check reports.
pub open spec fn refused(outcome: Result<(), SafetyError>) -> Option<Refusal> {
    match outcome {
        Ok(_) => None,
        Err(error) => error.refusal(),
    }
}

/// The outcome is `Ok` exactly when nothing is refused, and otherwise reports
/// the refusal.
pub open spec fn reports(outcome: Result<(), SafetyError>, refusal: Option<Refusal>) -> bool {
    &&& outcome is Ok == refusal is None
    &&& refused(outcome) == refusal
}

/// The first of `dirs` at or under which `s` lies.
pub open spec fn first_over(p: Platform, dirs: Seq<Seq<char>>, s: Seq<char>) -> Option<Seq<char>>
    decreases dirs.len(),
{
    if dirs.len() == 0 {
        None
    } else {
        match first_over(p, dirs.drop_last(), s) {
            Some(dir) => Some(dir),
            None => if under(p, s, dirs.last()) {
                Some(dirs.last())
            } else {
                None
            },
        }
    }
}

impl JailContext {
    /// Whether `s` lies in a temp area that may be cleaned.
    pub open spec fn in_temp(self, s: Seq<char>) -> bool {
        first_over(self.platform, spellings(self.temp_prefixes@), s) is Some
    }

    /// Whether `s` is a system root or lies under one. Bare filesystem and
    /// drive roots count only themselves: otherwise they would swallow every
    /// path on their volume.
    pub open spec fn in_system(self, s: Seq<char>) -> bool {
        exists|i: int|
            0 <= i < self.system_roots@.len() && root_hit(
                self.platform,
                #[trigger] spellings(self.system_roots@)[i],
                s,
            )
    }

    /// Why the location `s` must not be cleaned, if it must not.
    pub open spec fn verdict(self, s: Seq<char>) -> Option<Refusal> {
        let p = self.platform;
        if !has_parent(p, s) && !self.in_temp(s) {
            Some(Refusal::System(s))
        } else if self.home is Some && same_location(p, s, self.home->0@) {
            Some(Refusal::Home(self.home->0@))
        } else if self.home is Some && holds_home(p, self.home->0@, s) {
            Some(Refusal::System(parent_text(p, self.home->0@)))
        } else if !self.in_temp(s) && self.in_system(s) {
            Some(Refusal::System(s))
        } else {
            match first_over(p, spellings(self.user_dirs@), s) {
                Some(dir) => Some(Refusal::UserData(dir)),
                None => None,
            }
        }
    }
}

/// Whether the protected root `root` covers `s`.
pub open spec fn root_hit(p: Platform, root: Seq<char>, s: Seq<char>) -> bool {
    if has_parent(p, root) {
        under(p, s, root)
    } else {
        same_location(p, s, root)
    }
}

/// Position of the first of `dirs` at or under which `path` lies.
fn find_over(dirs: &Vec<PathBuf>, path: &PathBuf, p: Platform) -> (found: Option<usize>)
    ensures
        match found {
            Some(i) => i < dirs@.len() && first_over(p, spellings(dirs@), path@) == Some(
                dirs@[i as int]@,
            ),
            None => first_over(p, spellings(dirs@), path@) is None,
        },
{
    let ghost all = spellings(dirs@);
    let mut i: usize = 0;
    assert(all.take(0) =~= Seq::empty());
    while i < dirs.len()
        invariant
            i <= dirs@.len(),
            all == spellings(dirs@),
            first_over(p, all.take(i as int), path@) is None,
        decreases dirs.len() - i,
    {
        proof {
            assert(all.take(i + 1).drop_last() =~= all.take(i as int));
            assert(all.take(i + 1).last() == dirs@[i as int]@);
        }
        if path.starts_with(&dirs[i], p) {
            proof {
                lemma_first_over_prefix(p, all, path@, i + 1);
            }
            return Some(i);
        }
        i += 1;
    }
    assert(all.take(all.len() as int) =~= all);
    None
}

proof fn lemma_first_over_prefix(p: Platform, dirs: Seq<Seq<char>>, s: Seq<char>, i: int)
    requires
        0 <= i <= dirs.len(),
        first_over(p, dirs.take(i), s) is Some,
    ensures
        first_over(p, dirs, s) == first_over(p, dirs.take(i), s),
    decreases dirs.len() - i,
{
    if i < dirs.len() {
        assert(dirs.take(i + 1).drop_last() =~= dirs.take(i));
        lemma_first_over_prefix(p, dirs, s, i + 1);
    } else {
        assert(dirs.take(i) =~= dirs);
    }
}

/// Whether `normalized` lies in a temp area that may be cleaned.
pub fn is_cleanable_temp(jail: &JailContext, normalized: &PathBuf) -> (yes: bool)
    ensures
        yes == jail.in_temp(normalized@),
{
    find_over(&jail.temp_prefixes, normalized, jail.platform).is_some()
}

fn is_in_system(jail: &JailContext, normalized: &PathBuf) -> (yes: bool)
    ensures
        yes == jail.in_system(normalized@),
{
    let ghost all = spellings(jail.system_roots@);
    let mut i: usize = 0;
    while i < jail.system_roots.len()
        invariant
            i <= jail.system_roots@.len(),
            all == spellings(jail.system_roots@),
            forall|j: int|
                0 <= j < i ==> !root_hit(jail.platform, #[trigger] all[j], normalized@),
        decreases jail.system_roots.len() - i,
    {
        let root = &jail.system_roots[i];
        assert(all[i as int] == root@);
        let hit = if root.has_parent(jail.platform) {
            normalized.starts_with(root, jail.platform)
        } else {
            normalized.same_as(root, jail.platform)
        };
        if hit {
            return true;
        }
        i += 1;
    }
    false
}

/// Jail check for an already-normalized path.
pub fn ensure_safe_location(jail: &JailContext, normalized: &PathBuf) -> (outcome: Result<
    (),
    SafetyError,
>)
    ensures
        reports(outcome, jail.verdict(normalized@)),
{
    let p = jail.platform;
    let under_temp = is_cleanable_temp(jail, normalized);
    // Bare filesystem roots ("/" on POSIX, any "D:\"-style volume root on
    // Windows) have no parent. They are never deletable themselves, even when
    // not enumerated among the system roots.
    if !normalized.has_parent(p) && !under_temp {
        return Err(SafetyError::ProtectedSystemPath(normalized.clone()));
    }
    // The home directory, and the one that holds all user profiles.
    if let Some(home) = &jail.home {
        if normalized.same_as(home, p) {
            return Err(SafetyError::ProtectedHomeRoot(home.clone()));
        }
        if let Some(parent) = home.parent(p) {
            if normalized.same_as(&parent, p) {
                return Err(SafetyError::ProtectedSystemPath(parent));
            }
        }
    }
    if !under_temp && is_in_system(jail, normalized) {
        return Err(SafetyError::ProtectedSystemPath(normalized.clone()));
    }
    match find_over(&jail.user_dirs, normalized, p) {
        Some(i) => Err(SafetyError::ProtectedUserData(jail.user_dirs[i].clone())),
        None => Ok(()),
    }
}

// ---------------------------------------------------------------------------
// Normalization
// ---------------------------------------------------------------------------
/// A component list with `.` dropped and every `..` taking back what stands
/// before it; at the top there is nothing to take back.
pub open spec fn resolved(c: Seq<Comp>) -> Seq<Comp>
    decreases c.len(),
{
    if c.len() == 0 {
        c
    } else {
        let before = resolved(c.drop_last());
        match c.last() {
            Comp::Cur => before,
            Comp::Parent => if comps_have_parent(before) {
                before.drop_last()
            } else {
                before
            },
            other => before.push(other),
        }
    }
}

/// `path` read against the working directory.
pub open spec fn made_absolute(p: Platform, path: Seq<char>, cwd: Option<Seq<char>>) -> Seq<char> {
    if absolute(p, path) {
        path
    } else {
        match cwd {
            Some(cwd) => joined(p, cwd, path),
            None => path,
        }
    }
}

/// The spelling that a component list leaves when its components are taken in
/// order: `.` changes nothing, `..` goes one level up where there is one, and
/// any other is joined. The prefix is spelled `prefix`.
pub open spec fn normalized(p: Platform, prefix: Seq<char>, c: Seq<Comp>) -> Seq<char>
    decreases c.len(),
{
    if c.len() == 0 {
        Seq::empty()
    } else {
        let before = normalized(p, prefix, c.drop_last());
        match c.last() {
            Comp::Prefix(_) => joined(p, before, prefix),
            Comp::Root => joined(p, before, seq![main_separator(p)]),
            Comp::Cur => before,
            Comp::Parent => if has_parent(p, before) {
                parent_text(p, before)
            } else {
                before
            },
            Comp::Normal(name) => joined(p, before, name),
        }
    }
}

/// `path` with `.` and `..` resolved by spelling alone.
pub open spec fn lexical(p: Platform, path: Seq<char>, cwd: Option<Seq<char>>) -> Seq<char> {
    let full = made_absolute(p, path, cwd);
    normalized(p, prefix_text(p, full), components(p, full))
}

/// Resolve `.`/`..` components without touching the filesystem. Unlike
/// canonicalization this never follows symlinks, which is exactly what the
/// execution-time re-check wants: removing a link must remain possible even
/// when the link points somewhere protected.
pub fn lexical_normalize(p: Platform, path: &PathBuf, cwd: &Option<PathBuf>) -> (out: PathBuf)
    ensures
        out@ == lexical(p, path@, spelling(*cwd)),
{
    let full = if path.is_absolute(p) {
        path.clone()
    } else {
        match cwd {
            Some(cwd) => cwd.join(path.text.as_str(), p),
            None => path.clone(),
        }
    };
    let prefix = full.prefix_text(p);
    let root = if p.is_unix() {
        "/"
    } else {
        "\\"
    };
    proof {
        reveal_strlit("/");
        reveal_strlit("\\");
        assert(root@ =~= seq![main_separator(p)]);
    }
    let list = full.components(p);
    let ghost all = comps_view(list@);
    let mut out = PathBuf::new("");
    let mut i: usize = 0;
    proof {
        reveal_strlit("");
        assert(all.take(0) =~= Seq::empty());
        assert(out@ =~= normalized(p, prefix@, all.take(0)));
    }
    while i < list.len()
        invariant
            i <= list@.len(),
            all == comps_view(list@),
            root@ == seq![main_separator(p)],
            out@ == normalized(p, prefix@, all.take(i as int)),
        decreases list.len() - i,
    {
        proof {
            assert(all.take(i + 1).drop_last() =~= all.take(i as int));
            assert(all.take(i + 1).last() == list@[i as int]@);
        }
        match &list[i] {
            Component::CurDir => {},
            Component::ParentDir => {
                if let Some(parent) = out.parent(p) {
                    out = parent;
                }
            },
            Component::Prefix(_) => {
                out = out.join(prefix.as_str(), p);
            },
            Component::RootDir => {
                out = out.join(root, p);
            },
            Component::Normal(name) => {
                out = out.join(name.as_str(), p);
            },
        }
        i += 1;
    }
    assert(all.take(all.len() as int) =~= all);
    out
}

/// A canonical Windows path in its plain form: `\\?\C:\x` is `C:\x` and
/// `\\?\UNC\srv\share` is `\\srv\share`. Other paths stay as they are.
pub open spec fn unverbatim(p: Platform, s: Seq<char>) -> Seq<char> {
    if p != Platform::Windows {
        s
    } else if starts_with_text(s, "\\\\?\\UNC\\"@) {
        "\\\\"@ + s.skip("\\\\?\\UNC\\"@.len() as int)
    } else if starts_with_text(s, "\\\\?\\"@) {
        s.skip("\\\\?\\"@.len() as int)
    } else {
        s
    }
}

pub fn strip_verbatim_prefix(p: Platform, path: PathBuf) -> (out: PathBuf)
    ensures
        out@ == unverbatim(p, path@),
{
    if p != Platform::Windows {
        return path;
    }
    let s = chars_of(path.text.as_str());
    let unc = chars_of("\\\\?\\UNC\\");
    if starts_with(&s, &unc) {
        let rest = string_of(&s, unc.len(), s.len());
        assert(rest@ =~= s@.skip(unc@.len() as int));
        let text = crate::text::concat("\\\\", rest.as_str());
        return PathBuf { text };
    }
    let plain = chars_of("\\\\?\\");
    if starts_with(&s, &plain) {
        let rest = string_of(&s, plain.len(), s.len());
        assert(rest@ =~= s@.skip(plain@.len() as int));
        return PathBuf { text: rest };
    }
    path
}

impl JailContext {
    /// Where `path` is judged: at its canonical location, where the file
    /// system gave one, at its lexically resolved spelling otherwise.
    pub open spec fn judged_at(self, path: Seq<char>, canonical: Option<Seq<char>>) -> Seq<char> {
        unverbatim(
            self.platform,
            match canonical {
                Some(canon) => canon,
                None => lexical(self.platform, path, spelling(self.current_dir)),
            },
        )
    }
}

/// Canonicalize for jail comparison. Windows canonical paths are verbatim
/// (`\\?\C:\Users\me`); compared raw against plain paths they never match,
/// which would silently bypass every protection rule.
pub fn canonicalize_for_jail(jail: &JailContext, path: &PathBuf, canonical: &Option<PathBuf>) -> (out:
    PathBuf)
    ensures
        out@ == jail.judged_at(path@, spelling(*canonical)),
{
    let canon = match canonical {
        Some(canon) => canon.clone(),
        None => lexical_normalize(jail.platform, path, &jail.current_dir),
    };
    strip_verbatim_prefix(jail.platform, canon)
}

/// Evaluate `path` against the safety jail.
///
/// The path is canonicalized first so symlinks are judged by where they point,
/// falling back to lexical normalization when the entry does not exist:
/// `canonical` is its canonical location, where the file system gave one.
pub fn validate_path_safety(
    jail: &JailContext,
    path: &PathBuf,
    canonical: &Option<PathBuf>,
) -> (outcome: Result<(), SafetyError>)
    ensures
        reports(outcome, jail.verdict(jail.judged_at(path@, spelling(*canonical)))),
{
    let normalized = canonicalize_for_jail(jail, path, canonical);
    ensure_safe_location(jail, &normalized)
}

// ---------------------------------------------------------------------------
// Laws
// ---------------------------------------------------------------------------
proof fn lemma_first_over(p: Platform, dirs: Seq<Seq<char>>, s: Seq<char>)
    ensures
        first_over(p, dirs, s) is Some <==> exists|i: int|
            0 <= i < dirs.len() && under(p, s, #[trigger] dirs[i]),
    decreases dirs.len(),
{
    if dirs.len() > 0 {
        let short = dirs.drop_last();
        lemma_first_over(p, short, s);
        if first_over(p, short, s) is Some {
            let i = choose|i: int| 0 <= i < short.len() && under(p, s, #[trigger] short[i]);
            assert(under(p, s, dirs[i]));
        }
        if exists|i: int| 0 <= i < dirs.len() && under(p, s, #[trigger] dirs[i]) {
            let i = choose|i: int| 0 <= i < dirs.len() && under(p, s, #[trigger] dirs[i]);
            if i < short.len() {
                assert(under(p, s, short[i]));
            }
        }
        if under(p, s, dirs.last()) {
            assert(under(p, s, dirs[dirs.len() - 1]));
        }
    }
}

/// A location may be cleaned exactly when it is neither a bare root nor the
/// home directory nor the directory that holds all homes, lies under no
/// system root and under no personal directory. The temp areas are excepted
/// from the rules on roots, and from those alone.
pub proof fn law_allowed_locations(jail: JailContext, s: Seq<char>)
    ensures
        jail.verdict(s) is None <==> {
            let p = jail.platform;
            let users = spellings(jail.user_dirs@);
            let temps = spellings(jail.temp_prefixes@);
            let temp = exists|i: int| 0 <= i < temps.len() && under(p, s, #[trigger] temps[i]);
            &&& has_parent(p, s) || temp
            &&& match jail.home {
                Some(home) => !same_location(p, s, home@) && !holds_home(p, home@, s),
                None => true,
            }
            &&& temp || !jail.in_system(s)
            &&& forall|i: int| 0 <= i < users.len() ==> !under(p, s, #[trigger] users[i])
        },
{
    lemma_first_over(jail.platform, spellings(jail.temp_prefixes@), s);
    lemma_first_over(jail.platform, spellings(jail.user_dirs@), s);
}

/// The home directory is refused in every context, however it is spelled,
/// and so is the directory that holds it.
pub proof fn law_home_refused(jail: JailContext, home: PathBuf, s: Seq<char>)
    requires
        jail.home == Some(home),
        same_location(jail.platform, s, home@) || holds_home(jail.platform, home@, s),
    ensures
        jail.verdict(s) is Some,
{
}

/// Everything in a personal directory is refused, temp area or not.
pub proof fn law_user_data_refused(jail: JailContext, i: int, s: Seq<char>)
    requires
        0 <= i < jail.user_dirs@.len(),
        under(jail.platform, s, jail.user_dirs@[i]@),
    ensures
        jail.verdict(s) is Some,
{
    assert(spellings(jail.user_dirs@)[i] == jail.user_dirs@[i]@);
    lemma_first_over(jail.platform, spellings(jail.user_dirs@), s);
}

/// Outside the temp areas every bare root is refused, and everything that a
/// system root covers.
pub proof fn law_system_refused(jail: JailContext, i: int, s: Seq<char>)
    requires
        0 <= i < jail.system_roots@.len(),
        !jail.in_temp(s),
        !has_parent(jail.platform, s) || root_hit(jail.platform, jail.system_roots@[i]@, s),
    ensures
        jail.verdict(s) is Some,
{
    assert(spellings(jail.system_roots@)[i] == jail.system_roots@[i]@);
}

/// Every fixed root is among the system roots, whatever the file system says
/// of it.
pub proof fn law_fixed_roots_kept(
    p: Platform,
    list: Seq<Seq<char>>,
    canonical: Seq<Option<Seq<char>>>,
    i: int,
)
    requires
        canonical.len() == list.len(),
        0 <= i < list.len(),
    ensures
        with_canonical(p, list, canonical).contains(list[i]),
    decreases list.len(),
{
    let before = with_canonical(p, list.drop_last(), canonical.drop_last());
    let out = with_canonical(p, list, canonical);
    if i == list.len() - 1 {
        assert(out[out.len() - 1] == list[i]);
    } else {
        law_fixed_roots_kept(p, list.drop_last(), canonical.drop_last(), i);
        let k = choose|k: int| 0 <= k < before.len() && before[k] == list[i];
        assert(out[k] == list[i]);
    }
}

/// Where a fixed root really lies is protected like the root itself, and
/// nothing is but the fixed roots and where they really lie.
pub proof fn law_real_roots_listed(
    p: Platform,
    list: Seq<Seq<char>>,
    canonical: Seq<Option<Seq<char>>>,
)
    requires
        canonical.len() == list.len(),
    ensures
        ({
            let out = with_canonical(p, list, canonical);
            &&& forall|i: int|
                0 <= i < list.len() && (#[trigger] canonical[i]) is Some ==> exists|k: int|
                    0 <= k < out.len() && components(p, #[trigger] out[k]) == components(
                        p,
                        canonical[i]->0,
                    )
            &&& forall|k: int|
                0 <= k < out.len() ==> list.contains(#[trigger] out[k]) || canonical.contains(
                    Some(out[k]),
                )
        }),
    decreases list.len(),
{
    if list.len() > 0 {
        let last = list.len() - 1;
        let short = list.drop_last();
        let fewer = canonical.drop_last();
        let before = with_canonical(p, short, fewer);
        let out = with_canonical(p, list, canonical);
        law_real_roots_listed(p, short, fewer);
        assert forall|i: int|
            0 <= i < list.len() && (#[trigger] canonical[i]) is Some implies exists|k: int|
            0 <= k < out.len() && components(p, #[trigger] out[k]) == components(
                p,
                canonical[i]->0,
            ) by {
            if i < last {
                assert(fewer[i] == canonical[i]);
                let k = choose|k: int|
                    0 <= k < before.len() && components(p, #[trigger] before[k]) == components(
                        p,
                        canonical[i]->0,
                    );
                assert(out[k] == before[k]);
            } else if same_location(p, canonical[i]->0, list[last]) {
                assert(out[out.len() - 1] == list[last]);
            } else {
                assert(out[out.len() - 2] == canonical[i]->0);
            }
        }
        assert forall|k: int| 0 <= k < out.len() implies list.contains(#[trigger] out[k])
            || canonical.contains(Some(out[k])) by {
            if k < before.len() {
                assert(out[k] == before[k]);
                if short.contains(before[k]) {
                    let i = choose|i: int| 0 <= i < short.len() && short[i] == before[k];
                    assert(list[i] == out[k]);
                } else {
                    let i = choose|i: int| 0 <= i < fewer.len() && fewer[i] == Some(before[k]);
                    assert(canonical[i] == Some(out[k]));
                }
            } else if k == out.len() - 1 {
                assert(list[last] == out[k]);
            } else {
                assert(canonical[last] == Some(out[k]));
            }
        }
    }
}

/// A poisoned directory for temporary files opens nothing: besides the fixed
/// areas, no temp area is a bare root, a system root, the home directory or
/// the directory that holds all homes.
pub proof fn law_temp_areas_sane(
    p: Platform,
    roots: Seq<Seq<char>>,
    home: Option<Seq<char>>,
    canonical: Seq<Option<Seq<char>>>,
    os_temp: Seq<char>,
    os_canonical: Option<Seq<char>>,
    i: int,
)
    requires
        static_temp(p).len() <= i < temp_areas(p, roots, home, canonical, os_temp, os_canonical).len(),
    ensures
        sane_temp(
            p,
            roots,
            home,
            temp_areas(p, roots, home, canonical, os_temp, os_canonical)[i],
        ),
{
}

/// What taking the components of an absolute path in order leaves: the anchor
/// and the names that `.` and `..` leave, spelled anew.
proof fn lemma_normalized(p: Platform, s: Seq<char>, list: Seq<Comp>) -> (names: Seq<Comp>)
    requires
        well_anchored(p, s),
        steady_comps(p, list),
    ensures
        steady_names(p, names),
        resolved(anchor(p, s) + list) == anchor(p, s) + names,
        normalized(p, prefix_text(p, s), anchor(p, s) + list) == spelled(p, s, names),
    decreases list.len(),
{
    let a = anchor(p, s);
    let raw = prefix_text(p, s);
    let none = Seq::<Comp>::empty();
    if list.len() == 0 {
        lemma_join_anchor(p, s);
        assert(a + list =~= a);
        assert(a + none =~= a);
        let first = a.drop_last();
        assert(a.last() == Comp::Root);
        if p == Platform::Windows {
            assert(first.len() == 1 && first.last() is Prefix);
            assert(first.drop_last() =~= none);
            assert(normalized(p, raw, first.drop_last()) =~= Seq::<char>::empty());
            assert(resolved(first.drop_last()) =~= none);
            assert(resolved(first) =~= first);
            assert(normalized(p, raw, first) == raw);
        } else {
            assert(first =~= none);
            assert(resolved(first) =~= none);
            assert(normalized(p, raw, first) =~= raw);
        }
        assert(resolved(a) =~= a);
        none
    } else {
        let short = list.drop_last();
        assert forall|i: int| 0 <= i < short.len() implies (#[trigger] short[i] is Cur
            || short[i] is Parent || (short[i] is Normal && steady_name(
            p,
            short[i]->Normal_0,
        ))) by {
            assert(short[i] == list[i]);
        }
        let before = lemma_normalized(p, s, short);
        assert((a + list).drop_last() =~= a + short);
        let last = list[list.len() - 1];
        assert((a + list).last() == last);
        match last {
            Comp::Parent => {
                lemma_parent_name(p, s, before);
                if before.len() > 0 {
                    assert((a + before).last() == before[before.len() - 1]);
                    assert((a + before).drop_last() =~= a + before.drop_last());
                    before.drop_last()
                } else {
                    assert(a + before =~= a);
                    assert(a.last() is Root);
                    before
                }
            },
            Comp::Normal(x) => {
                lemma_join_name(p, s, before, x);
                assert((a + before).push(last) =~= a + before.push(last));
                before.push(last)
            },
            _ => before,
        }
    }
}

proof fn lemma_resolved_fixed(p: Platform, c: Seq<Comp>)
    requires
        forall|i: int|
            0 <= i < c.len() ==> !(#[trigger] c[i] is Cur) && !(c[i] is Parent),
    ensures
        resolved(c) == c,
    decreases c.len(),
{
    if c.len() > 0 {
        let short = c.drop_last();
        assert forall|i: int| 0 <= i < short.len() implies !(#[trigger] short[i] is Cur) && !(
        short[i] is Parent) by {
            assert(short[i] == c[i]);
        }
        lemma_resolved_fixed(p, short);
        assert(!(c[c.len() - 1] is Cur) && !(c[c.len() - 1] is Parent));
        assert(resolved(c) =~= c);
    }
}

/// Lexical normalization of a path that can be made absolute: the result
/// denotes exactly what is left once every `.` and `..` is resolved, holds
/// none of them, is absolute, keeps the spelling of the prefix, and
/// normalizing it again changes nothing. On Windows the names in the path
/// must stand for themselves: a name such as `D:x` would replace all before
/// it.
pub proof fn law_lexical(p: Platform, path: Seq<char>, cwd: Option<Seq<char>>)
    requires
        absolute(p, made_absolute(p, path, cwd)),
        p.unix() || steady(p, made_absolute(p, path, cwd)),
    ensures
        components(p, lexical(p, path, cwd)) == resolved(
            components(p, made_absolute(p, path, cwd)),
        ),
        forall|i: int|
            0 <= i < components(p, lexical(p, path, cwd)).len() ==> !(#[trigger] components(
                p,
                lexical(p, path, cwd),
            )[i] is Cur) && !(components(p, lexical(p, path, cwd))[i] is Parent),
        absolute(p, lexical(p, path, cwd)),
        prefix_text(p, lexical(p, path, cwd)) == prefix_text(p, made_absolute(p, path, cwd)),
        lexical(p, lexical(p, path, cwd), cwd) == lexical(p, path, cwd),
{
    let full = made_absolute(p, path, cwd);
    let raw = prefix_text(p, full);
    let a = anchor(p, full);
    let none = Seq::<Comp>::empty();
    if shows_root(p, full) {
        lemma_body_steady(p, full);
        let names = lemma_normalized(p, full, body_comps(p, full));
        lemma_spelled(p, full, names);
        let c = a + names;
        assert forall|i: int| 0 <= i < c.len() implies !(#[trigger] c[i] is Cur) && !(
        c[i] is Parent) by {
            if i >= a.len() {
                assert(c[i] == names[i - a.len()]);
            }
        }
        lemma_resolved_fixed(p, c);
        let again = lemma_normalized(p, full, names);
        assert(again =~= c.skip(a.len() as int));
        assert(names =~= c.skip(a.len() as int));
    } else {
        lemma_unrooted(p, full);
        lemma_join_anchor(p, full);
        let c = components(p, full);
        assert(c.drop_last() =~= none);
        assert(normalized(p, raw, c.drop_last()) =~= Seq::<char>::empty());
        assert(resolved(c.drop_last()) =~= none);
        assert(resolved(c) =~= c);
    }
}

/// On Unix every path can be made absolute where the working directory is.
pub proof fn law_unix_made_absolute(p: Platform, path: Seq<char>, cwd: Seq<char>)
    requires
        p.unix(),
        absolute(p, cwd),
    ensures
        absolute(p, made_absolute(p, path, Some(cwd))),
{
}

/// No detour through `..` gets past the jail: a Unix path that does not exist
/// is refused when what `.` and `..` leave of it lies under a system root,
/// outside the temp areas, or in a personal directory.
pub proof fn law_traversal_refused(jail: JailContext, path: Seq<char>, base: Seq<char>)
    requires
        jail.platform.unix(),
        absolute(jail.platform, made_absolute(jail.platform, path, spelling(jail.current_dir))),
        components(jail.platform, base).is_prefix_of(
            resolved(
                components(
                    jail.platform,
                    made_absolute(jail.platform, path, spelling(jail.current_dir)),
                ),
            ),
        ),
        ({
            ||| has_parent(jail.platform, base) && spellings(jail.system_roots@).contains(base)
                && !jail.in_temp(jail.judged_at(path, None))
            ||| spellings(jail.user_dirs@).contains(base)
        }),
    ensures
        jail.verdict(jail.judged_at(path, None)) is Some,
{
    let p = jail.platform;
    let s = jail.judged_at(path, None);
    law_lexical(p, path, spelling(jail.current_dir));
    assert(under(p, s, base));
    if spellings(jail.user_dirs@).contains(base) {
        let i = choose|i: int|
            0 <= i < spellings(jail.user_dirs@).len() && spellings(jail.user_dirs@)[i] == base;
        law_user_data_refused(jail, i, s);
    } else {
        let i = choose|i: int|
            0 <= i < spellings(jail.system_roots@).len() && spellings(jail.system_roots@)[i]
                == base;
        law_system_refused(jail, i, s);
    }
}

proof fn lemma_contains_first(a: Seq<Seq<char>>, b: Seq<Seq<char>>, x: Seq<char>)
    requires
        a.contains(x),
    ensures
        (a + b).contains(x),
{
    let i = choose|i: int| 0 <= i < a.len() && a[i] == x;
    assert((a + b)[i] == x);
}

proof fn lemma_contains_second(a: Seq<Seq<char>>, b: Seq<Seq<char>>, i: int)
    requires
        0 <= i < b.len(),
    ensures
        (a + b).contains(b[i]),
{
    assert((a + b)[a.len() + i] == b[i]);
}

/// Each of the six personal directories that the system knows of is protected,
/// and so is each customary folder of a home.
#[verifier::spinoff_prover]
#[verifier::rlimit(40)]
pub proof fn law_personal_folders_listed(
    p: Platform,
    home: Option<Seq<char>>,
    dirs: UserDirectories,
)
    ensures
        ({
            let list = dirs.known() + customary(p, home);
            &&& dirs.document matches Some(dir) ==> list.contains(dir@)
            &&& dirs.desktop matches Some(dir) ==> list.contains(dir@)
            &&& dirs.download matches Some(dir) ==> list.contains(dir@)
            &&& dirs.audio matches Some(dir) ==> list.contains(dir@)
            &&& dirs.picture matches Some(dir) ==> list.contains(dir@)
            &&& dirs.video matches Some(dir) ==> list.contains(dir@)
            &&& home matches Some(home) ==> {
                &&& list.contains(joined(p, home, "Documents"@))
                &&& list.contains(joined(p, home, "Desktop"@))
                &&& list.contains(joined(p, home, "Downloads"@))
                &&& list.contains(joined(p, home, "Music"@))
                &&& list.contains(joined(p, home, "Pictures"@))
                &&& list.contains(joined(p, home, "Videos"@))
            }
        }),
{
    let known = dirs.known();
    let custom = customary(p, home);
    let all = seq![
        spelling(dirs.document),
        spelling(dirs.desktop),
        spelling(dirs.download),
        spelling(dirs.audio),
        spelling(dirs.picture),
        spelling(dirs.video),
    ];
    if dirs.document is Some {
        lemma_present(all, 0);
        lemma_contains_first(known, custom, dirs.document->0@);
    }
    if dirs.desktop is Some {
        lemma_present(all, 1);
        lemma_contains_first(known, custom, dirs.desktop->0@);
    }
    if dirs.download is Some {
        lemma_present(all, 2);
        lemma_contains_first(known, custom, dirs.download->0@);
    }
    if dirs.audio is Some {
        lemma_present(all, 3);
        lemma_contains_first(known, custom, dirs.audio->0@);
    }
    if dirs.picture is Some {
        lemma_present(all, 4);
        lemma_contains_first(known, custom, dirs.picture->0@);
    }
    if dirs.video is Some {
        lemma_present(all, 5);
        lemma_contains_first(known, custom, dirs.video->0@);
    }
    if home is Some {
        lemma_contains_second(known, custom, 0);
        lemma_contains_second(known, custom, 1);
        lemma_contains_second(known, custom, 2);
        lemma_contains_second(known, custom, 3);
        lemma_contains_second(known, custom, 4);
        lemma_contains_second(known, custom, 5);
    }
}

/// A jail that protects the personal directories refuses everything at or
/// under any of them: the six that the system knows of, and the customary
/// ones of the home directory.
pub proof fn law_personal_folders_refused(
    jail: JailContext,
    dirs: UserDirectories,
    s: Seq<char>,
)
    requires
        spellings(jail.user_dirs@) == dirs.known() + customary(
            jail.platform,
            spelling(jail.home),
        ),
    ensures
        dirs.document matches Some(dir) && components(jail.platform, dir@).is_prefix_of(
            components(jail.platform, s),
        ) ==> jail.verdict(s) is Some,
        dirs.desktop matches Some(dir) && components(jail.platform, dir@).is_prefix_of(
            components(jail.platform, s),
        ) ==> jail.verdict(s) is Some,
        dirs.download matches Some(dir) && components(jail.platform, dir@).is_prefix_of(
            components(jail.platform, s),
        ) ==> jail.verdict(s) is Some,
        dirs.audio matches Some(dir) && components(jail.platform, dir@).is_prefix_of(
            components(jail.platform, s),
        ) ==> jail.verdict(s) is Some,
        dirs.picture matches Some(dir) && components(jail.platform, dir@).is_prefix_of(
            components(jail.platform, s),
        ) ==> jail.verdict(s) is Some,
        dirs.video matches Some(dir) && components(jail.platform, dir@).is_prefix_of(
            components(jail.platform, s),
        ) ==> jail.verdict(s) is Some,
        jail.home matches Some(home) && components(
            jail.platform,
            joined(jail.platform, home@, "Documents"@),
        ).is_prefix_of(components(jail.platform, s)) ==> jail.verdict(s) is Some,
        jail.home matches Some(home) && components(
            jail.platform,
            joined(jail.platform, home@, "Desktop"@),
        ).is_prefix_of(components(jail.platform, s)) ==> jail.verdict(s) is Some,
        jail.home matches Some(home) && components(
            jail.platform,
            joined(jail.platform, home@, "Downloads"@),
        ).is_prefix_of(components(jail.platform, s)) ==> jail.verdict(s) is Some,
        jail.home matches Some(home) && components(
            jail.platform,
            joined(jail.platform, home@, "Music"@),
        ).is_prefix_of(components(jail.platform, s)) ==> jail.verdict(s) is Some,
        jail.home matches Some(home) && components(
            jail.platform,
            joined(jail.platform, home@, "Pictures"@),
        ).is_prefix_of(components(jail.platform, s)) ==> jail.verdict(s) is Some,
        jail.home matches Some(home) && components(
            jail.platform,
            joined(jail.platform, home@, "Videos"@),
        ).is_prefix_of(components(jail.platform, s)) ==> jail.verdict(s) is Some,
{
    let p = jail.platform;
    law_personal_folders_listed(p, spelling(jail.home), dirs);
    let list = spellings(jail.user_dirs@);
    assert forall|x: Seq<char>| list.contains(x) && #[trigger] components(p, x).is_prefix_of(
        components(p, s),
    ) implies jail.verdict(s) is Some by {
        let i = choose|i: int| 0 <= i < list.len() && list[i] == x;
        assert(jail.user_dirs@[i]@ == x);
        law_user_data_refused(jail, i, s);
    }
}

/// Whether a component list is no more than a root, a drive or nothing.
pub open spec fn bare(c: Seq<Comp>) -> bool {
    c.len() == 0 || c.last() is Prefix || c.last() is Root
}

/// What the jail refuses, told by components alone: a bare root, unless a temp
/// area holds it; the home directory and the one that holds it; everything at
/// or under a system root, of a bare one only itself, unless a temp area holds
/// it; everything at or under a personal directory. It allows all else.
pub proof fn law_verdict(jail: JailContext, s: Seq<char>)
    ensures
        ({
            let p = jail.platform;
            let c = components(p, s);
            let temp = exists|i: int|
                0 <= i < jail.temp_prefixes@.len() && components(
                    p,
                    (#[trigger] jail.temp_prefixes@[i])@,
                ).is_prefix_of(c);
            let system = exists|i: int|
                0 <= i < jail.system_roots@.len() && {
                    let root = components(p, (#[trigger] jail.system_roots@[i])@);
                    if bare(root) {
                        root == c
                    } else {
                        root.is_prefix_of(c)
                    }
                };
            let home = jail.home matches Some(home) && {
                let h = components(p, home@);
                h == c || (!bare(h) && h.drop_last() == c)
            };
            let personal = exists|i: int|
                0 <= i < jail.user_dirs@.len() && components(
                    p,
                    (#[trigger] jail.user_dirs@[i])@,
                ).is_prefix_of(c);
            jail.verdict(s) is Some <==> {
                ||| bare(c) && !temp
                ||| home
                ||| system && !temp
                ||| personal
            }
        }),
{
    let p = jail.platform;
    let c = components(p, s);
    let temps = spellings(jail.temp_prefixes@);
    let users = spellings(jail.user_dirs@);
    let roots = spellings(jail.system_roots@);
    lemma_first_over(p, temps, s);
    lemma_first_over(p, users, s);
    assert forall|i: int| 0 <= i < jail.temp_prefixes@.len() implies temps[i] == (
    #[trigger] jail.temp_prefixes@[i])@ by {}
    assert forall|i: int| 0 <= i < jail.user_dirs@.len() implies users[i] == (
    #[trigger] jail.user_dirs@[i])@ by {}
    assert forall|i: int| 0 <= i < jail.system_roots@.len() implies roots[i] == (
    #[trigger] jail.system_roots@[i])@ by {}
    if jail.home is Some && has_parent(p, jail.home->0@) {
        law_parent(p, jail.home->0@);
    }
    if jail.in_temp(s) {
        let i = choose|i: int| 0 <= i < temps.len() && under(p, s, #[trigger] temps[i]);
        assert(components(p, jail.temp_prefixes@[i]@).is_prefix_of(c));
    }
    if first_over(p, users, s) is Some {
        let i = choose|i: int| 0 <= i < users.len() && under(p, s, #[trigger] users[i]);
        assert(components(p, jail.user_dirs@[i]@).is_prefix_of(c));
    }
    if jail.in_system(s) {
        let i = choose|i: int|
            0 <= i < jail.system_roots@.len() && root_hit(p, #[trigger] roots[i], s);
        assert(jail.system_roots@[i]@ == roots[i]);
    }
    assert forall|i: int| 0 <= i < jail.temp_prefixes@.len() && components(
        p,
        (#[trigger] jail.temp_prefixes@[i])@,
    ).is_prefix_of(c) implies jail.in_temp(s) by {
        assert(under(p, s, temps[i]));
    }
    assert forall|i: int| 0 <= i < jail.user_dirs@.len() && components(
        p,
        (#[trigger] jail.user_dirs@[i])@,
    ).is_prefix_of(c) implies first_over(p, users, s) is Some by {
        assert(under(p, s, users[i]));
    }
    assert forall|i: int| 0 <= i < jail.system_roots@.len() && {
        let root = components(p, (#[trigger] jail.system_roots@[i])@);
        if bare(root) {
            root == c
        } else {
            root.is_prefix_of(c)
        }
    } implies jail.in_system(s) by {
        assert(root_hit(p, roots[i], s));
    }
}

/// Which refusal is given: the home directory is named as such, the directory
/// that holds it and what a system root covers are system paths, and what lies
/// in a personal directory is told by a directory that it lies in.
pub proof fn law_refusal_named(jail: JailContext, s: Seq<char>)
    ensures
        ({
            let p = jail.platform;
            let c = components(p, s);
            &&& jail.verdict(s) matches Some(Refusal::Home(path)) ==> jail.home is Some && path
                == jail.home->0@ && components(p, path) == c
            &&& jail.home is Some && components(p, jail.home->0@) == c && !bare(c)
                ==> jail.verdict(s) == Some(Refusal::Home(jail.home->0@))
            &&& jail.verdict(s) matches Some(Refusal::System(path)) ==> components(p, path) == c
            &&& jail.verdict(s) matches Some(Refusal::UserData(path)) ==> components(
                p,
                path,
            ).is_prefix_of(c) && spellings(jail.user_dirs@).contains(path)
        }),
{
    let p = jail.platform;
    if jail.home is Some && has_parent(p, jail.home->0@) {
        law_parent(p, jail.home->0@);
    }
    lemma_first_over_is(p, spellings(jail.user_dirs@), s);
}

proof fn lemma_first_over_is(p: Platform, dirs: Seq<Seq<char>>, s: Seq<char>)
    ensures
        first_over(p, dirs, s) matches Some(dir) ==> dirs.contains(dir) && under(p, s, dir),
    decreases dirs.len(),
{
    if dirs.len() > 0 {
        let short = dirs.drop_last();
        lemma_first_over_is(p, short, s);
        if first_over(p, short, s) is Some {
            let dir = first_over(p, short, s)->0;
            let i = choose|i: int| 0 <= i < short.len() && short[i] == dir;
            assert(dirs[i] == dir);
        } else {
            assert(dirs[dirs.len() - 1] == dirs.last());
        }
    }
}

/// The directory that the system designates for temporary files becomes a temp
/// area unless it is a bare root, a system root, the home directory or the one
/// that holds it; and besides the fixed areas nothing that is one of these
/// ever does.
pub proof fn law_temp_areas(
    p: Platform,
    roots: Seq<Seq<char>>,
    home: Option<Seq<char>>,
    canonical: Seq<Option<Seq<char>>>,
    os_temp: Seq<char>,
    os_canonical: Option<Seq<char>>,
)
    ensures
        ({
            let areas = temp_areas(p, roots, home, canonical, os_temp, os_canonical);
            let n = static_temp(p).len() as int;
            let harmless = |x: Seq<char>|
                {
                    let c = components(p, x);
                    &&& !bare(c)
                    &&& forall|i: int|
                        0 <= i < roots.len() ==> components(p, #[trigger] roots[i]) != c
                    &&& home matches Some(home) ==> {
                        let h = components(p, home);
                        h != c && (bare(h) || h.drop_last() != c)
                    }
                };
            &&& n <= areas.len()
            &&& forall|i: int| n <= i < areas.len() ==> harmless(#[trigger] areas[i])
            &&& harmless(os_temp) ==> areas.contains(os_temp)
            &&& harmless(os_temp) && os_canonical is Some && harmless(os_canonical->0) ==> exists|
                i: int,
            |
                0 <= i < areas.len() && components(p, #[trigger] areas[i]) == components(
                    p,
                    os_canonical->0,
                )
        }),
{
    let areas = temp_areas(p, roots, home, canonical, os_temp, os_canonical);
    let fixed = fixed_temp(p, canonical);
    let n = static_temp(p).len() as int;
    if home is Some && has_parent(p, home->0) {
        law_parent(p, home->0);
    }
    assert forall|x: Seq<char>| #[trigger] sane_temp(p, roots, home, x) <==> {
        let c = components(p, x);
        &&& !bare(c)
        &&& forall|i: int| 0 <= i < roots.len() ==> components(p, #[trigger] roots[i]) != c
        &&& home matches Some(home) ==> {
            let h = components(p, home);
            h != c && (bare(h) || h.drop_last() != c)
        }
    } by {
        if sane_temp(p, roots, home, x) {
            assert forall|i: int| 0 <= i < roots.len() implies components(p, #[trigger] roots[i])
                != components(p, x) by {
                assert(!same_location(p, x, roots[i]));
            }
        }
    }
    assert forall|i: int| n <= i < areas.len() implies sane_temp(
        p,
        roots,
        home,
        #[trigger] areas[i],
    ) by {
        law_temp_areas_sane(p, roots, home, canonical, os_temp, os_canonical, i);
    }
    if sane_temp(p, roots, home, os_temp) {
        assert(areas[n] == os_temp);
        if os_canonical is Some && sane_temp(p, roots, home, os_canonical->0) {
            if same_location(p, os_canonical->0, os_temp) {
                assert(components(p, areas[n]) == components(p, os_canonical->0));
            } else {
                assert(areas[n + 1] == os_canonical->0);
            }
        }
    }
}

/// The fixed temp areas of a Unix machine are `/tmp` and `/var/tmp`, or where
/// these lead to.
pub proof fn law_fixed_temp_areas(
    p: Platform,
    roots: Seq<Seq<char>>,
    home: Option<Seq<char>>,
    canonical: Seq<Option<Seq<char>>>,
    os_temp: Seq<char>,
    os_canonical: Option<Seq<char>>,
)
    requires
        p.unix(),
        canonical.len() == 2,
    ensures
        ({
            let areas = temp_areas(p, roots, home, canonical, os_temp, os_canonical);
            &&& areas.len() >= 2
            &&& areas[0] == (match canonical[0] {
                Some(canon) => canon,
                None => "/tmp"@,
            })
            &&& areas[1] == (match canonical[1] {
                Some(canon) => canon,
                None => "/var/tmp"@,
            })
        }),
{
    let areas = temp_areas(p, roots, home, canonical, os_temp, os_canonical);
    assert(areas.take(2) =~= fixed_temp(p, canonical));
    assert(areas[0] == areas.take(2)[0] && areas[1] == areas.take(2)[1]);
}

/// What the Windows environment names as a system location is one: each
/// variable that is set and not blank.
#[verifier::spinoff_prover]
#[verifier::rlimit(40)]
pub proof fn law_windows_locations(vars: WindowsVariables, value: String)
    requires
        trimmed(value@).len() > 0,
    ensures
        vars.system_root == Some(value) ==> vars.roots().contains(trimmed(value@)),
        vars.windir == Some(value) ==> vars.roots().contains(trimmed(value@)),
        vars.program_files == Some(value) ==> vars.roots().contains(trimmed(value@)),
        vars.program_files_x86 == Some(value) ==> vars.roots().contains(trimmed(value@)),
        vars.program_w6432 == Some(value) ==> vars.roots().contains(trimmed(value@)),
        vars.system_drive == Some(value) ==> {
            let drive = if trimmed(value@).last() == '\\' {
                trimmed(value@)
            } else {
                trimmed(value@).push('\\')
            };
            vars.roots().contains(drive) && vars.roots().contains(
                joined(Platform::Windows, drive, "Windows"@),
            )
        },
{
    let named = seq![
        named_dir(vars.system_root),
        named_dir(vars.windir),
        named_dir(vars.program_files),
        named_dir(vars.program_files_x86),
        named_dir(vars.program_w6432),
    ];
    let head = vars.drive_roots();
    let tail = present(named);
    if vars.system_root == Some(value) {
        lemma_present(named, 0);
        let k = choose|k: int| 0 <= k < tail.len() && tail[k] == trimmed(value@);
        lemma_contains_second(head, tail, k);
    }
    if vars.windir == Some(value) {
        lemma_present(named, 1);
        let k = choose|k: int| 0 <= k < tail.len() && tail[k] == trimmed(value@);
        lemma_contains_second(head, tail, k);
    }
    if vars.program_files == Some(value) {
        lemma_present(named, 2);
        let k = choose|k: int| 0 <= k < tail.len() && tail[k] == trimmed(value@);
        lemma_contains_second(head, tail, k);
    }
    if vars.program_files_x86 == Some(value) {
        lemma_present(named, 3);
        let k = choose|k: int| 0 <= k < tail.len() && tail[k] == trimmed(value@);
        lemma_contains_second(head, tail, k);
    }
    if vars.program_w6432 == Some(value) {
        lemma_present(named, 4);
        let k = choose|k: int| 0 <= k < tail.len() && tail[k] == trimmed(value@);
        lemma_contains_second(head, tail, k);
    }
    if vars.system_drive == Some(value) {
        assert(head.contains(head[0]) && head.contains(head[1]));
        lemma_contains_first(head, tail, head[0]);
        lemma_contains_first(head, tail, head[1]);
    }
}

proof fn lemma_unix_top(p: Platform, text: Seq<char>, x: Seq<char>)
    requires
        p.unix(),
        plain_name(p, x),
        text == seq!['/'] + x,
    ensures
        components(p, text) == seq![Comp::Root, Comp::Normal(x)],
{
    let top = seq!['/'];
    let names = seq![Comp::Normal(x)];
    assert(absolute(p, top) && shows_root(p, top));
    lemma_spelled(p, top, names);
    assert(prefix_text(p, top) =~= Seq::empty());
    assert(names_text(p, names) == x);
    assert(spelled(p, top, names) =~= text);
    assert(anchor(p, top) =~= seq![Comp::Root]);
    assert(components(p, text) =~= seq![Comp::Root, Comp::Normal(x)]);
}

/// On Unix everything in the directories of the system is refused outside the
/// temp areas: whatever lies at or under `/bin`, `/sbin`, `/usr`, `/etc`,
/// `/lib`, `/boot`, `/dev`, `/sys`, `/proc` or `/var`, and `/` itself.
pub proof fn law_unix_system_refused(
    jail: JailContext,
    canonical: Seq<Option<Seq<char>>>,
    s: Seq<char>,
)
    requires
        jail.platform.unix(),
        canonical.len() == static_roots(jail.platform).len(),
        spellings(jail.system_roots@) == with_canonical(
            jail.platform,
            static_roots(jail.platform),
            canonical,
        ),
        forall|i: int|
            0 <= i < jail.temp_prefixes@.len() ==> !components(
                jail.platform,
                (#[trigger] jail.temp_prefixes@[i])@,
            ).is_prefix_of(components(jail.platform, s)),
        ({
            let c = components(jail.platform, s);
            ||| c == seq![Comp::Root]
            ||| c.len() >= 2 && c[0] == Comp::Root && c[1] is Normal && ({
                let x = c[1]->Normal_0;
                ||| x == "bin"@
                ||| x == "sbin"@
                ||| x == "usr"@
                ||| x == "etc"@
                ||| x == "lib"@
                ||| x == "boot"@
                ||| x == "dev"@
                ||| x == "sys"@
                ||| x == "proc"@
                ||| x == "var"@
            })
        }),
    ensures
        jail.verdict(s) is Some,
{
    let p = jail.platform;
    let c = components(p, s);
    law_verdict(jail, s);
    if c != seq![Comp::Root] {
        let x = c[1]->Normal_0;
        let all = static_roots(p);
        let roots = spellings(jail.system_roots@);
        reveal_strlit("bin");
        reveal_strlit("/bin");
        reveal_strlit("sbin");
        reveal_strlit("/sbin");
        reveal_strlit("usr");
        reveal_strlit("/usr");
        reveal_strlit("etc");
        reveal_strlit("/etc");
        reveal_strlit("lib");
        reveal_strlit("/lib");
        reveal_strlit("boot");
        reveal_strlit("/boot");
        reveal_strlit("dev");
        reveal_strlit("/dev");
        reveal_strlit("sys");
        reveal_strlit("/sys");
        reveal_strlit("proc");
        reveal_strlit("/proc");
        reveal_strlit("var");
        reveal_strlit("/var");
        let k: int = if x == "bin"@ {
            1
        } else if x == "sbin"@ {
            2
        } else if x == "usr"@ {
            3
        } else if x == "etc"@ {
            5
        } else if x == "lib"@ {
            6
        } else if x == "boot"@ {
            7
        } else if x == "dev"@ {
            8
        } else if x == "sys"@ {
            9
        } else if x == "proc"@ {
            10
        } else {
            11
        };
        assert("/bin"@ =~= seq!['/'] + "bin"@);
        assert("bin"@.len() == 3 && "bin"@[0] == 'b' && "bin"@[1] == 'i' && "bin"@[2] == 'n');
        assert("/sbin"@ =~= seq!['/'] + "sbin"@);
        assert("sbin"@.len() == 4 && "sbin"@[0] == 's' && "sbin"@[1] == 'b' && "sbin"@[2] == 'i' && "sbin"@[3] == 'n');
        assert("/usr"@ =~= seq!['/'] + "usr"@);
        assert("usr"@.len() == 3 && "usr"@[0] == 'u' && "usr"@[1] == 's' && "usr"@[2] == 'r');
        assert("/etc"@ =~= seq!['/'] + "etc"@);
        assert("etc"@.len() == 3 && "etc"@[0] == 'e' && "etc"@[1] == 't' && "etc"@[2] == 'c');
        assert("/lib"@ =~= seq!['/'] + "lib"@);
        assert("lib"@.len() == 3 && "lib"@[0] == 'l' && "lib"@[1] == 'i' && "lib"@[2] == 'b');
        assert("/boot"@ =~= seq!['/'] + "boot"@);
        assert("boot"@.len() == 4 && "boot"@[0] == 'b' && "boot"@[1] == 'o' && "boot"@[2] == 'o' && "boot"@[3] == 't');
        assert("/dev"@ =~= seq!['/'] + "dev"@);
        assert("dev"@.len() == 3 && "dev"@[0] == 'd' && "dev"@[1] == 'e' && "dev"@[2] == 'v');
        assert("/sys"@ =~= seq!['/'] + "sys"@);
        assert("sys"@.len() == 3 && "sys"@[0] == 's' && "sys"@[1] == 'y' && "sys"@[2] == 's');
        assert("/proc"@ =~= seq!['/'] + "proc"@);
        assert("proc"@.len() == 4 && "proc"@[0] == 'p' && "proc"@[1] == 'r' && "proc"@[2] == 'o' && "proc"@[3] == 'c');
        assert("/var"@ =~= seq!['/'] + "var"@);
        assert("var"@.len() == 3 && "var"@[0] == 'v' && "var"@[1] == 'a' && "var"@[2] == 'r');
        assert(all[k] == seq!['/'] + x);
        assert(plain_name(p, x));
        lemma_unix_top(p, all[k], x);
        law_fixed_roots_kept(p, all, canonical, k);
        let i = choose|i: int| 0 <= i < roots.len() && roots[i] == all[k];
        assert(jail.system_roots@[i]@ == all[k]);
        let root = components(p, all[k]);
        assert(c.subrange(0, 2) =~= root);
        assert(root.is_prefix_of(c));
    }
}

/// Where a path is judged: where the file system says that it leads, and by
/// its spelling resolved against the working directory only where it cannot
/// say. On Windows the verbatim form that the file system gives is undone.
pub proof fn law_judged_where_it_leads(jail: JailContext, path: Seq<char>, rest: Seq<char>)
    ensures
        jail.platform.unix() ==> jail.judged_at(path, Some(rest)) == rest,
        jail.platform.unix() ==> jail.judged_at(path, None) == lexical(
            jail.platform,
            path,
            spelling(jail.current_dir),
        ),
        jail.platform == Platform::Windows && rest.len() >= 2 && rest[1] == ':' ==> jail.judged_at(
            path,
            Some(seq!['\\', '\\', '?', '\\'] + rest),
        ) == rest,
        jail.platform == Platform::Windows ==> jail.judged_at(
            path,
            Some(seq!['\\', '\\', '?', '\\', 'U', 'N', 'C', '\\'] + rest),
        ) == seq!['\\', '\\'] + rest,
{
    let plain = seq!['\\', '\\', '?', '\\'];
    let unc = seq!['\\', '\\', '?', '\\', 'U', 'N', 'C', '\\'];
    reveal_strlit("\\\\?\\UNC\\");
    reveal_strlit("\\\\?\\");
    reveal_strlit("\\\\");
    assert("\\\\?\\UNC\\"@ =~= unc);
    assert("\\\\?\\"@ =~= plain);
    assert("\\\\"@ =~= seq!['\\', '\\']);
    let a = plain + rest;
    let b = unc + rest;
    assert(a.skip(4) =~= rest);
    assert(b.skip(8) =~= rest);
    assert(starts_with_text(b, unc)) by {
        assert(b.subrange(0, 8) =~= unc);
    }
    assert(starts_with_text(a, plain)) by {
        assert(a.subrange(0, 4) =~= plain);
    }
    if rest.len() >= 2 && rest[1] == ':' {
        assert(!starts_with_text(a, unc)) by {
            assert(a[5] == rest[1]);
            if starts_with_text(a, unc) {
                assert(a.subrange(0, 8)[5] == unc[5]);
            }
        }
    }
}

/// A relative Unix path is read against the working directory.
pub proof fn law_relative_read_against_cwd(p: Platform, path: Seq<char>, cwd: Seq<char>)
    requires
        p.unix(),
        path.len() > 0,
        path[0] != '/',
        cwd.len() > 0,
        cwd.last() != '/',
    ensures
        made_absolute(p, path, Some(cwd)) == cwd + seq!['/'] + path,
{
    assert(cwd.push('/') + path =~= cwd + seq!['/'] + path);
}

/// How an absolute Unix path is resolved by its spelling, step by step: a name
/// leads on, a name and `..` lead nowhere, neither does `.`, and above the
/// root there is nothing.
#[verifier::spinoff_prover]
#[verifier::rlimit(40)]
pub proof fn law_lexical_steps(p: Platform, s: Seq<char>, x: Seq<char>, cwd: Option<Seq<char>>)
    requires
        p != Platform::Windows,
        s.len() > 0,
        s[0] == '/',
        !x.contains('/'),
        x.len() > 0,
        x != seq!['.'],
        x != seq!['.', '.'],
    ensures
        ({
            let here = components(p, lexical(p, s, cwd));
            let on = s.push('/') + x;
            &&& components(p, lexical(p, on, cwd)) == here.push(Comp::Normal(x))
            &&& components(p, lexical(p, on.push('/') + seq!['.', '.'], cwd)) == here
            &&& components(p, lexical(p, s.push('/') + seq!['.'], cwd)) == here
            &&& components(p, lexical(p, seq!['/'], cwd)) == seq![Comp::Root]
            &&& components(p, lexical(p, seq!['/'] + seq!['.', '.'], cwd)) == seq![Comp::Root]
        }),
{
    let up = seq!['.', '.'];
    let dot = seq!['.'];
    let none = Seq::<char>::empty();
    let on = s.push('/') + x;
    let back = on.push('/') + up;
    let stay = s.push('/') + dot;
    let c = components(p, s);
    let named = c.push(Comp::Normal(x));
    assert(!up.contains('/') && !dot.contains('/') && !none.contains('/'));
    law_unix_components(p, s, x);
    law_unix_components(p, on, up);
    law_unix_components(p, s, dot);
    assert(on[0] == '/' && back[0] == '/' && stay[0] == '/');
    law_lexical(p, s, cwd);
    law_lexical(p, on, cwd);
    law_lexical(p, back, cwd);
    law_lexical(p, stay, cwd);
    assert(named.drop_last() =~= c);
    assert(resolved(named) == resolved(c).push(Comp::Normal(x)));
    assert(named.push(Comp::Parent).drop_last() =~= named);
    assert(resolved(c).push(Comp::Normal(x)).drop_last() =~= resolved(c));
    law_unix_first_component(p, none);
    law_unix_first_component(p, up);
    let root = seq!['/'];
    assert(root + none =~= root);
    let top = root + up;
    assert(root[0] == '/' && top[0] == '/');
    law_lexical(p, root, cwd);
    law_lexical(p, top, cwd);
    let only = seq![Comp::Root];
    assert(only.drop_last() =~= Seq::<Comp>::empty());
    assert(resolved(Seq::<Comp>::empty()) =~= Seq::<Comp>::empty());
    assert(resolved(only) =~= only);
    assert(seq![Comp::Root, Comp::Parent].drop_last() =~= only);
}

} // verus!
