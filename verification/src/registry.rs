//! The catalog of cleanable cache locations.

use crate::path::{joined, PathBuf, Platform};
use crate::util::Duration;
use vstd::prelude::*;
use vstd::string::*;

verus! {

/// Minimum age, in seconds, applied to volatile system-temp content when the
/// user did not request an explicit `--older-than` window (protects live
/// sessions): one day.
pub const SYSTEM_TEMP_MIN_AGE: i64 = 86_400;

/// Where this machine keeps things, as far as the catalog depends on it.
#[derive(Debug)]
pub struct Environment {
    pub platform: Platform,
    /// The home directory.
    pub home: Option<PathBuf>,
    /// The per-user cache directory.
    pub cache_dir: Option<PathBuf>,
    /// `%LOCALAPPDATA%`.
    pub local_app_data: Option<PathBuf>,
    /// The directory for temporary files.
    pub temp_dir: PathBuf,
}

/// A named location category that diskpulse knows how to clean.
#[derive(Debug, PartialEq)]
pub struct CleanTargetDef {
    /// Stable identifier used on the command line (e.g. `"cargo-cache"`).
    pub id: &'static str,
    pub name: &'static str,
    pub description: &'static str,
    pub enabled_by_default: bool,
    /// Roots resolved for the platform at hand.
    pub paths: Vec<PathBuf>,
    /// Age floor applied when the user omits `--older-than`.
    pub default_older_than: Option<Duration>,
}

/// The mathematical value of a [`CleanTargetDef`].
#[verifier::ext_equal]
pub struct Target {
    pub id: Seq<char>,
    pub name: Seq<char>,
    pub description: Seq<char>,
    pub enabled_by_default: bool,
    pub paths: Seq<Seq<char>>,
    /// Age floor in seconds.
    pub min_age: Option<int>,
}

/// The spellings of a list of paths.
pub open spec fn spellings(paths: Seq<PathBuf>) -> Seq<Seq<char>> {
    paths.map_values(|path: PathBuf| path@)
}

/// The spelling of a path that may be missing.
pub open spec fn spelling(path: Option<PathBuf>) -> Option<Seq<char>> {
    match path {
        Some(path) => Some(path@),
        None => None,
    }
}

impl View for CleanTargetDef {
    type V = Target;

    open spec fn view(&self) -> Target {
        Target {
            id: self.id@,
            name: self.name@,
            description: self.description@,
            enabled_by_default: self.enabled_by_default,
            paths: spellings(self.paths@),
            min_age: match self.default_older_than {
                Some(age) => Some(age.seconds as int),
                None => None,
            },
        }
    }
}

/// The values of a list of targets.
pub open spec fn target_values(list: Seq<CleanTargetDef>) -> Seq<Target> {
    list.map_values(|t: CleanTargetDef| t@)
}

impl Clone for CleanTargetDef {
    fn clone(&self) -> (out: Self)
        ensures
            out@ == self@,
    {
        let paths = self.paths.clone();
        assert(paths@ =~= self.paths@);
        CleanTargetDef {
            id: self.id,
            name: self.name,
            description: self.description,
            enabled_by_default: self.enabled_by_default,
            paths,
            default_older_than: self.default_older_than,
        }
    }
}

/// Those of `paths` that are there.
pub open spec fn present(paths: Seq<Option<Seq<char>>>) -> Seq<Seq<char>>
    decreases paths.len(),
{
    if paths.len() == 0 {
        Seq::empty()
    } else {
        match paths.last() {
            Some(path) => present(paths.drop_last()).push(path),
            None => present(paths.drop_last()),
        }
    }
}

/// What is there is kept.
pub proof fn lemma_present(paths: Seq<Option<Seq<char>>>, i: int)
    requires
        0 <= i < paths.len(),
        paths[i] is Some,
    ensures
        present(paths).contains(paths[i]->0),
    decreases paths.len(),
{
    let out = present(paths);
    if i == paths.len() - 1 {
        assert(out[out.len() - 1] == paths[i]->0);
    } else {
        let short = paths.drop_last();
        lemma_present(short, i);
        let before = present(short);
        let k = choose|k: int| 0 <= k < before.len() && before[k] == short[i]->0;
        assert(out[k] == paths[i]->0);
    }
}

/// The target made of the roots that are there.
pub open spec fn target(
    id: Seq<char>,
    name: Seq<char>,
    description: Seq<char>,
    enabled_by_default: bool,
    paths: Seq<Option<Seq<char>>>,
) -> Target {
    Target { id, name, description, enabled_by_default, paths: present(paths), min_age: None }
}

/// The spellings of a list of paths that may be missing.
pub open spec fn spelling_list(paths: Seq<Option<PathBuf>>) -> Seq<Option<Seq<char>>> {
    paths.map_values(|path: Option<PathBuf>| spelling(path))
}

/// Those of `paths` that are there.
pub(crate) fn keep_present(paths: Vec<Option<PathBuf>>) -> (out: Vec<PathBuf>)
    ensures
        spellings(out@) == present(spelling_list(paths@)),
{
    let ghost all = spelling_list(paths@);
    let mut out: Vec<PathBuf> = Vec::new();
    let mut i: usize = 0;
    assert(all.take(0) =~= Seq::empty());
    while i < paths.len()
        invariant
            i <= paths@.len(),
            all == spelling_list(paths@),
            spellings(out@) == present(all.take(i as int)),
        decreases paths.len() - i,
    {
        let ghost before = spellings(out@);
        assert(all.take(i + 1).drop_last() =~= all.take(i as int));
        assert(all.take(i + 1).last() == spelling(paths@[i as int]));
        if let Some(path) = &paths[i] {
            out.push(path.clone());
            assert(spellings(out@) =~= before.push(path@));
        }
        i += 1;
    }
    assert(all.take(all.len() as int) =~= all);
    out
}

impl CleanTargetDef {
    fn new(
        id: &'static str,
        name: &'static str,
        description: &'static str,
        enabled_by_default: bool,
        paths: Vec<Option<PathBuf>>,
    ) -> (out: Self)
        ensures
            out@ == target(id@, name@, description@, enabled_by_default, spelling_list(paths@)),
    {
        CleanTargetDef {
            id,
            name,
            description,
            enabled_by_default,
            paths: keep_present(paths),
            default_older_than: None,
        }
    }

    fn with_min_age(self, age: Duration) -> (out: Self)
        ensures
            out@ == (Target { min_age: Some(age.seconds as int), ..self@ }),
    {
        CleanTargetDef {
            id: self.id,
            name: self.name,
            description: self.description,
            enabled_by_default: self.enabled_by_default,
            paths: self.paths,
            default_older_than: Some(age),
        }
    }
}

// ---------------------------------------------------------------------------
// Platform path resolution helpers
// ---------------------------------------------------------------------------
/// `base` extended by each of `parts` in turn.
pub open spec fn below(p: Platform, base: Seq<char>, parts: Seq<Seq<char>>) -> Seq<char>
    decreases parts.len(),
{
    if parts.len() == 0 {
        base
    } else {
        joined(p, below(p, base, parts.drop_last()), parts.last())
    }
}

/// The texts of a list of names.
pub open spec fn texts(parts: Seq<&str>) -> Seq<Seq<char>> {
    parts.map_values(|part: &str| part@)
}

fn extend(base: &PathBuf, parts: &[&str], p: Platform) -> (out: PathBuf)
    ensures
        out@ == below(p, base@, texts(parts@)),
{
    let mut out = base.clone();
    let ghost all = texts(parts@);
    let mut i: usize = 0;
    assert(all.take(0) =~= Seq::empty());
    while i < parts.len()
        invariant
            i <= parts@.len(),
            all == texts(parts@),
            out@ == below(p, base@, all.take(i as int)),
        decreases parts.len() - i,
    {
        assert(all.take(i + 1).drop_last() =~= all.take(i as int));
        assert(all.take(i + 1).last() == parts@[i as int]@);
        out = out.join(parts[i], p);
        i += 1;
    }
    assert(all.take(all.len() as int) =~= all);
    out
}

impl Environment {
    /// A location below the home directory.
    pub open spec fn in_home(self, parts: Seq<Seq<char>>) -> Option<Seq<char>> {
        match self.home {
            Some(home) => Some(below(self.platform, home@, parts)),
            None => None,
        }
    }

    /// A location below the cache directory.
    pub open spec fn in_cache(self, parts: Seq<Seq<char>>) -> Option<Seq<char>> {
        match self.cache_dir {
            Some(cache) => Some(below(self.platform, cache@, parts)),
            None => None,
        }
    }

    /// A location below `%LOCALAPPDATA%`.
    pub open spec fn in_app_data(self, parts: Seq<Seq<char>>) -> Option<Seq<char>> {
        match self.local_app_data {
            Some(base) => Some(below(self.platform, base@, parts)),
            None => None,
        }
    }

    /// The one location below the home directory that the platform at hand
    /// uses, if it uses one.
    pub open spec fn home_relative(
        self,
        linux: Seq<Seq<char>>,
        macos: Seq<Seq<char>>,
        windows: Seq<Seq<char>>,
    ) -> Seq<Option<Seq<char>>> {
        let parts = match self.platform {
            Platform::Linux => linux,
            Platform::Macos => macos,
            _ => windows,
        };
        if parts.len() == 0 {
            Seq::empty()
        } else {
            seq![self.in_home(parts)]
        }
    }

    /// The location below `%LOCALAPPDATA%` that Windows uses.
    pub open spec fn app_data_relative(self, parts: Seq<Seq<char>>) -> Seq<Option<Seq<char>>> {
        if self.platform == Platform::Windows && self.local_app_data is Some {
            seq![self.in_app_data(parts)]
        } else {
            Seq::empty()
        }
    }

    fn home_sub(&self, rel: &[&str]) -> (out: Option<PathBuf>)
        ensures
            spelling(out) == self.in_home(texts(rel@)),
    {
        match &self.home {
            Some(home) => Some(extend(home, rel, self.platform)),
            None => None,
        }
    }

    fn cache_sub(&self, rel: &[&str]) -> (out: Option<PathBuf>)
        ensures
            spelling(out) == self.in_cache(texts(rel@)),
    {
        match &self.cache_dir {
            Some(cache) => Some(extend(cache, rel, self.platform)),
            None => None,
        }
    }

    fn app_data_sub(&self, rel: &[&str]) -> (out: Option<PathBuf>)
        ensures
            spelling(out) == self.in_app_data(texts(rel@)),
    {
        match &self.local_app_data {
            Some(base) => Some(extend(base, rel, self.platform)),
            None => None,
        }
    }

    /// Picks the platform's path segments relative to the home directory.
    fn home_relative_of(&self, linux: &[&str], macos: &[&str], windows: &[&str]) -> (out: Vec<
        Option<PathBuf>,
    >)
        ensures
            spelling_list(out@) == self.home_relative(texts(linux@), texts(macos@), texts(windows@)),
    {
        let segments = match self.platform {
            Platform::Linux => linux,
            Platform::Macos => macos,
            _ => windows,
        };
        let mut out: Vec<Option<PathBuf>> = Vec::new();
        if segments.len() > 0 {
            out.push(self.home_sub(segments));
        }
        assert(spelling_list(out@) =~= self.home_relative(
            texts(linux@),
            texts(macos@),
            texts(windows@),
        ));
        out
    }

    /// Paths rooted at `%LOCALAPPDATA%` (none on other platforms).
    fn local_appdata_relative(&self, out: &mut Vec<Option<PathBuf>>, windows: &[&str])
        ensures
            spelling_list(final(out)@) == spelling_list(old(out)@) + self.app_data_relative(
                texts(windows@),
            ),
    {
        let ghost before = spelling_list(out@);
        if self.platform == Platform::Windows && self.local_app_data.is_some() {
            out.push(self.app_data_sub(windows));
        }
        assert(spelling_list(out@) =~= before + self.app_data_relative(texts(windows@)));
    }
}

// ---------------------------------------------------------------------------
// Target registry
// ---------------------------------------------------------------------------
/// Where `system-temp` content lives.
pub open spec fn system_temp_paths(env: Environment) -> Seq<Option<Seq<char>>> {
    if env.platform.unix() {
        seq![Some("/tmp"@), Some("/var/tmp"@)]
    } else {
        seq![Some(env.temp_dir@)] + env.app_data_relative(seq!["Temp"@])
    }
}

/// The `system-temp` target.
pub open spec fn system_temp_target(env: Environment) -> Target {
    Target {
        min_age: Some(SYSTEM_TEMP_MIN_AGE as int),
        ..target(
        "system-temp"@,
        "System Temp"@,
        "Stale files inside OS temporary directories."@,
        true,
        system_temp_paths(env),
    )
    }
}

fn system_temp(env: &Environment) -> (out: CleanTargetDef)
    ensures
        out@ == system_temp_target(*env),
{
    let mut paths: Vec<Option<PathBuf>> = Vec::new();
    if env.platform.is_unix() {
        paths.push(Some(PathBuf::new("/tmp")));
        paths.push(Some(PathBuf::new("/var/tmp")));
    } else {
        proof {
        assert(texts(["Temp"]@) =~= seq!["Temp"@]);
    }
        paths.push(Some(env.temp_dir.clone()));
        assert(spelling_list(paths@) =~= seq![Some(env.temp_dir@)]);
        env.local_appdata_relative(&mut paths, &["Temp"]);
    }
    assert(spelling_list(paths@) =~= system_temp_paths(*env));
    CleanTargetDef::new(
        "system-temp",
        "System Temp",
        "Stale files inside OS temporary directories.",
        true,
        paths,
    ).with_min_age(Duration { seconds: SYSTEM_TEMP_MIN_AGE })
}

/// Where `user-cache` content lives.
pub open spec fn user_cache_paths(env: Environment) -> Seq<Option<Seq<char>>> {
    if env.platform == Platform::Windows {
        env.app_data_relative(seq!["Microsoft"@, "Windows"@, "INetCache"@])
    } else {
        seq![env.in_cache(Seq::empty())]
    }
}

/// The `user-cache` target.
pub open spec fn user_cache_target(env: Environment) -> Target {
    target(
        "user-cache"@,
        "OS User Cache"@,
        "Operating-system level user cache directory."@,
        true,
        user_cache_paths(env),
    )
}

fn user_cache(env: &Environment) -> (out: CleanTargetDef)
    ensures
        out@ == user_cache_target(*env),
{
    let mut paths: Vec<Option<PathBuf>> = Vec::new();
    let none: [&str; 0] = [];
    assert(texts(none@) =~= Seq::empty());
    proof {
        assert(texts(["Microsoft", "Windows", "INetCache"]@) =~= seq!["Microsoft"@, "Windows"@, "INetCache"@]);
    }
    if env.platform == Platform::Windows {
        assert(spelling_list(paths@) =~= Seq::empty());
        env.local_appdata_relative(&mut paths, &["Microsoft", "Windows", "INetCache"]);
    } else {
        paths.push(env.cache_sub(&none));
    }
    assert(spelling_list(paths@) =~= user_cache_paths(*env));
    CleanTargetDef::new(
        "user-cache",
        "OS User Cache",
        "Operating-system level user cache directory.",
        true,
        paths,
    )
}

/// Where `cargo-cache` content lives.
pub open spec fn cargo_cache_paths(env: Environment) -> Seq<Option<Seq<char>>> {
    seq![
        env.in_home(seq![".cargo"@, "registry"@, "cache"@]),
        env.in_home(seq![".cargo"@, "git"@, "db"@]),
    ]
}

/// The `cargo-cache` target.
pub open spec fn cargo_cache_target(env: Environment) -> Target {
    target(
        "cargo-cache"@,
        "Cargo Cache"@,
        "Rust crate archives and git checkouts cached by Cargo."@,
        true,
        cargo_cache_paths(env),
    )
}

fn cargo_cache(env: &Environment) -> (out: CleanTargetDef)
    ensures
        out@ == cargo_cache_target(*env),
{
    proof {
        assert(texts([".cargo", "registry", "cache"]@) =~= seq![".cargo"@, "registry"@, "cache"@]);
        assert(texts([".cargo", "git", "db"]@) =~= seq![".cargo"@, "git"@, "db"@]);
    }
    let mut paths: Vec<Option<PathBuf>> = Vec::new();
    paths.push(env.home_sub(&[".cargo", "registry", "cache"]));
    paths.push(env.home_sub(&[".cargo", "git", "db"]));
    assert(spelling_list(paths@) =~= cargo_cache_paths(*env));
    CleanTargetDef::new(
        "cargo-cache",
        "Cargo Cache",
        "Rust crate archives and git checkouts cached by Cargo.",
        true,
        paths,
    )
}

/// Where `npm-cache` content lives.
pub open spec fn npm_cache_paths(env: Environment) -> Seq<Option<Seq<char>>> {
    env.home_relative(
        seq![".npm"@, "_cacache"@],
        seq![".npm"@, "_cacache"@],
        Seq::empty(),
    ) + env.app_data_relative(seq!["npm-cache"@])
}

/// The `npm-cache` target.
pub open spec fn npm_cache_target(env: Environment) -> Target {
    target(
        "npm-cache"@,
        "npm Cache"@,
        "Package tarball cache maintained by npm (_cacache)."@,
        true,
        npm_cache_paths(env),
    )
}

fn npm_cache(env: &Environment) -> (out: CleanTargetDef)
    ensures
        out@ == npm_cache_target(*env),
{
    let none: [&str; 0] = [];
    assert(texts(none@) =~= Seq::empty());
    proof {
        assert(texts([".npm", "_cacache"]@) =~= seq![".npm"@, "_cacache"@]);
        assert(texts([".npm", "_cacache"]@) =~= seq![".npm"@, "_cacache"@]);
        assert(texts(["npm-cache"]@) =~= seq!["npm-cache"@]);
    }
    let mut paths = env.home_relative_of(&[".npm", "_cacache"], &[".npm", "_cacache"], &none);
    env.local_appdata_relative(&mut paths, &["npm-cache"]);
    assert(spelling_list(paths@) =~= npm_cache_paths(*env));
    CleanTargetDef::new(
        "npm-cache",
        "npm Cache",
        "Package tarball cache maintained by npm (_cacache).",
        true,
        paths,
    )
}

/// Where `yarn-cache` content lives.
pub open spec fn yarn_cache_paths(env: Environment) -> Seq<Option<Seq<char>>> {
    env.home_relative(
        seq![".cache"@, "yarn"@],
        seq!["Library"@, "Caches"@, "Yarn"@],
        seq!["Yarn"@, "Cache"@],
    )
}

/// The `yarn-cache` target.
pub open spec fn yarn_cache_target(env: Environment) -> Target {
    target(
        "yarn-cache"@,
        "Yarn Cache"@,
        "Offline mirror and package cache maintained by Yarn."@,
        true,
        yarn_cache_paths(env),
    )
}

fn yarn_cache(env: &Environment) -> (out: CleanTargetDef)
    ensures
        out@ == yarn_cache_target(*env),
{
    proof {
        assert(texts([".cache", "yarn"]@) =~= seq![".cache"@, "yarn"@]);
        assert(texts(["Library", "Caches", "Yarn"]@) =~= seq!["Library"@, "Caches"@, "Yarn"@]);
        assert(texts(["Yarn", "Cache"]@) =~= seq!["Yarn"@, "Cache"@]);
    }
    let paths = env.home_relative_of(&[".cache", "yarn"], &["Library", "Caches", "Yarn"], &["Yarn", "Cache"]);
    assert(spelling_list(paths@) =~= yarn_cache_paths(*env));
    CleanTargetDef::new(
        "yarn-cache",
        "Yarn Cache",
        "Offline mirror and package cache maintained by Yarn.",
        true,
        paths,
    )
}

/// Where `pnpm-cache` content lives.
pub open spec fn pnpm_cache_paths(env: Environment) -> Seq<Option<Seq<char>>> {
    env.home_relative(
        seq![".local"@, "share"@, "pnpm"@, "store"@],
        seq!["Library"@, "pnpm"@, "store"@],
        Seq::empty(),
    ) + env.app_data_relative(seq!["pnpm"@, "store"@])
}

/// The `pnpm-cache` target.
pub open spec fn pnpm_cache_target(env: Environment) -> Target {
    target(
        "pnpm-cache"@,
        "pnpm Store"@,
        "Content-addressable package store maintained by pnpm."@,
        true,
        pnpm_cache_paths(env),
    )
}

fn pnpm_cache(env: &Environment) -> (out: CleanTargetDef)
    ensures
        out@ == pnpm_cache_target(*env),
{
    let none: [&str; 0] = [];
    assert(texts(none@) =~= Seq::empty());
    proof {
        assert(texts([".local", "share", "pnpm", "store"]@) =~= seq![".local"@, "share"@, "pnpm"@, "store"@]);
        assert(texts(["Library", "pnpm", "store"]@) =~= seq!["Library"@, "pnpm"@, "store"@]);
        assert(texts(["pnpm", "store"]@) =~= seq!["pnpm"@, "store"@]);
    }
    let mut paths = env.home_relative_of(&[".local", "share", "pnpm", "store"], &["Library", "pnpm", "store"], &none);
    env.local_appdata_relative(&mut paths, &["pnpm", "store"]);
    assert(spelling_list(paths@) =~= pnpm_cache_paths(*env));
    CleanTargetDef::new(
        "pnpm-cache",
        "pnpm Store",
        "Content-addressable package store maintained by pnpm.",
        true,
        paths,
    )
}

/// Where `pip-cache` content lives.
pub open spec fn pip_cache_paths(env: Environment) -> Seq<Option<Seq<char>>> {
    env.home_relative(
        seq![".cache"@, "pip"@],
        seq!["Library"@, "Caches"@, "pip"@],
        seq!["pip"@, "Cache"@],
    )
}

/// The `pip-cache` target.
pub open spec fn pip_cache_target(env: Environment) -> Target {
    target(
        "pip-cache"@,
        "pip Cache"@,
        "Downloaded wheel cache maintained by pip."@,
        true,
        pip_cache_paths(env),
    )
}

fn pip_cache(env: &Environment) -> (out: CleanTargetDef)
    ensures
        out@ == pip_cache_target(*env),
{
    proof {
        assert(texts([".cache", "pip"]@) =~= seq![".cache"@, "pip"@]);
        assert(texts(["Library", "Caches", "pip"]@) =~= seq!["Library"@, "Caches"@, "pip"@]);
        assert(texts(["pip", "Cache"]@) =~= seq!["pip"@, "Cache"@]);
    }
    let paths = env.home_relative_of(&[".cache", "pip"], &["Library", "Caches", "pip"], &["pip", "Cache"]);
    assert(spelling_list(paths@) =~= pip_cache_paths(*env));
    CleanTargetDef::new(
        "pip-cache",
        "pip Cache",
        "Downloaded wheel cache maintained by pip.",
        true,
        paths,
    )
}

/// Where `gradle-cache` content lives.
pub open spec fn gradle_cache_paths(env: Environment) -> Seq<Option<Seq<char>>> {
    seq![
        env.in_home(seq![".gradle"@, "caches"@]),
    ]
}

/// The `gradle-cache` target.
pub open spec fn gradle_cache_target(env: Environment) -> Target {
    target(
        "gradle-cache"@,
        "Gradle Cache"@,
        "Build and dependency caches under ~/.gradle/caches."@,
        true,
        gradle_cache_paths(env),
    )
}

fn gradle_cache(env: &Environment) -> (out: CleanTargetDef)
    ensures
        out@ == gradle_cache_target(*env),
{
    proof {
        assert(texts([".gradle", "caches"]@) =~= seq![".gradle"@, "caches"@]);
    }
    let mut paths: Vec<Option<PathBuf>> = Vec::new();
    paths.push(env.home_sub(&[".gradle", "caches"]));
    assert(spelling_list(paths@) =~= gradle_cache_paths(*env));
    CleanTargetDef::new(
        "gradle-cache",
        "Gradle Cache",
        "Build and dependency caches under ~/.gradle/caches.",
        true,
        paths,
    )
}

/// Where `go-build` content lives.
pub open spec fn go_build_paths(env: Environment) -> Seq<Option<Seq<char>>> {
    env.home_relative(
        seq![".cache"@, "go-build"@],
        seq![".cache"@, "go-build"@],
        Seq::empty(),
    ) + env.app_data_relative(seq!["go-build"@])
}

/// The `go-build` target.
pub open spec fn go_build_target(env: Environment) -> Target {
    target(
        "go-build"@,
        "Go Build Cache"@,
        "Compiled package cache of the Go toolchain."@,
        true,
        go_build_paths(env),
    )
}

fn go_build(env: &Environment) -> (out: CleanTargetDef)
    ensures
        out@ == go_build_target(*env),
{
    let none: [&str; 0] = [];
    assert(texts(none@) =~= Seq::empty());
    proof {
        assert(texts([".cache", "go-build"]@) =~= seq![".cache"@, "go-build"@]);
        assert(texts([".cache", "go-build"]@) =~= seq![".cache"@, "go-build"@]);
        assert(texts(["go-build"]@) =~= seq!["go-build"@]);
    }
    let mut paths = env.home_relative_of(&[".cache", "go-build"], &[".cache", "go-build"], &none);
    env.local_appdata_relative(&mut paths, &["go-build"]);
    assert(spelling_list(paths@) =~= go_build_paths(*env));
    CleanTargetDef::new(
        "go-build",
        "Go Build Cache",
        "Compiled package cache of the Go toolchain.",
        true,
        paths,
    )
}

/// Where `xcode` content lives.
pub open spec fn xcode_paths(env: Environment) -> Seq<Option<Seq<char>>> {
    env.home_relative(
        Seq::empty(),
        seq!["Library"@, "Developer"@, "Xcode"@, "DerivedData"@],
        Seq::empty(),
    )
}

/// The `xcode` target.
pub open spec fn xcode_target(env: Environment) -> Target {
    target(
        "xcode"@,
        "Xcode Derived Data"@,
        "Per-project Xcode build artifacts and indexes (macOS only)."@,
        false,
        xcode_paths(env),
    )
}

fn xcode(env: &Environment) -> (out: CleanTargetDef)
    ensures
        out@ == xcode_target(*env),
{
    let none: [&str; 0] = [];
    assert(texts(none@) =~= Seq::empty());
    proof {
        assert(texts(["Library", "Developer", "Xcode", "DerivedData"]@) =~= seq!["Library"@, "Developer"@, "Xcode"@, "DerivedData"@]);
    }
    let paths = env.home_relative_of(&none, &["Library", "Developer", "Xcode", "DerivedData"], &none);
    assert(spelling_list(paths@) =~= xcode_paths(*env));
    CleanTargetDef::new(
        "xcode",
        "Xcode Derived Data",
        "Per-project Xcode build artifacts and indexes (macOS only).",
        false,
        paths,
    )
}

/// Where `docker-build` content lives.
pub open spec fn docker_build_paths(env: Environment) -> Seq<Option<Seq<char>>> {
    seq![
        env.in_home(seq![".docker"@, "buildx"@, "refs"@]),
        env.in_home(seq![".docker"@, "buildx"@, "cache"@]),
    ]
}

/// The `docker-build` target.
pub open spec fn docker_build_target(env: Environment) -> Target {
    target(
        "docker-build"@,
        "Docker Buildx Cache"@,
        "Local buildx layer cache and references."@,
        false,
        docker_build_paths(env),
    )
}

fn docker_build(env: &Environment) -> (out: CleanTargetDef)
    ensures
        out@ == docker_build_target(*env),
{
    proof {
        assert(texts([".docker", "buildx", "refs"]@) =~= seq![".docker"@, "buildx"@, "refs"@]);
        assert(texts([".docker", "buildx", "cache"]@) =~= seq![".docker"@, "buildx"@, "cache"@]);
    }
    let mut paths: Vec<Option<PathBuf>> = Vec::new();
    paths.push(env.home_sub(&[".docker", "buildx", "refs"]));
    paths.push(env.home_sub(&[".docker", "buildx", "cache"]));
    assert(spelling_list(paths@) =~= docker_build_paths(*env));
    CleanTargetDef::new(
        "docker-build",
        "Docker Buildx Cache",
        "Local buildx layer cache and references.",
        false,
        paths,
    )
}

/// Where `browser-cache` content lives.
pub open spec fn browser_cache_paths(env: Environment) -> Seq<Option<Seq<char>>> {
    match env.platform {
        Platform::Macos => seq![
            env.in_cache(seq!["Google"@, "Chrome"@]),
            env.in_cache(seq!["Firefox"@]),
            env.in_cache(seq!["BraveSoftware"@, "Brave-Browser"@]),
            env.in_cache(seq!["Chromium"@]),
        ],
        Platform::Linux => seq![
            env.in_home(seq![".cache"@, "google-chrome"@]),
            env.in_home(seq![".cache"@, "mozilla"@]),
            env.in_home(seq![".cache"@, "BraveSoftware"@]),
            env.in_home(seq![".cache"@, "chromium"@]),
        ],
        _ => seq![
            env.in_app_data(seq!["Google"@, "Chrome"@, "User Data"@, "Default"@, "Cache"@]),
            env.in_app_data(seq!["Mozilla"@, "Firefox"@]),
        ],
    }
}

/// The `browser-cache` target.
pub open spec fn browser_cache_target(env: Environment) -> Target {
    target(
        "browser-cache"@,
        "Browser Caches"@,
        "Chromium, Chrome, Firefox and Brave HTTP caches."@,
        false,
        browser_cache_paths(env),
    )
}

fn browser_cache(env: &Environment) -> (out: CleanTargetDef)
    ensures
        out@ == browser_cache_target(*env),
{
    proof {
        assert(texts(["Google", "Chrome"]@) =~= seq!["Google"@, "Chrome"@]);
        assert(texts(["Firefox"]@) =~= seq!["Firefox"@]);
        assert(texts(["BraveSoftware", "Brave-Browser"]@) =~= seq!["BraveSoftware"@, "Brave-Browser"@]);
        assert(texts(["Chromium"]@) =~= seq!["Chromium"@]);
        assert(texts([".cache", "google-chrome"]@) =~= seq![".cache"@, "google-chrome"@]);
        assert(texts([".cache", "mozilla"]@) =~= seq![".cache"@, "mozilla"@]);
        assert(texts([".cache", "BraveSoftware"]@) =~= seq![".cache"@, "BraveSoftware"@]);
        assert(texts([".cache", "chromium"]@) =~= seq![".cache"@, "chromium"@]);
        assert(texts(["Google", "Chrome", "User Data", "Default", "Cache"]@) =~= seq!["Google"@, "Chrome"@, "User Data"@, "Default"@, "Cache"@]);
        assert(texts(["Mozilla", "Firefox"]@) =~= seq!["Mozilla"@, "Firefox"@]);
    }
    let mut paths: Vec<Option<PathBuf>> = Vec::new();
    match env.platform {
        Platform::Macos => {
            paths.push(env.cache_sub(&["Google", "Chrome"]));
            paths.push(env.cache_sub(&["Firefox"]));
            paths.push(env.cache_sub(&["BraveSoftware", "Brave-Browser"]));
            paths.push(env.cache_sub(&["Chromium"]));
        },
        Platform::Linux => {
            paths.push(env.home_sub(&[".cache", "google-chrome"]));
            paths.push(env.home_sub(&[".cache", "mozilla"]));
            paths.push(env.home_sub(&[".cache", "BraveSoftware"]));
            paths.push(env.home_sub(&[".cache", "chromium"]));
        },
        _ => {
            paths.push(env.app_data_sub(&["Google", "Chrome", "User Data", "Default", "Cache"]));
            paths.push(env.app_data_sub(&["Mozilla", "Firefox"]));
        },
    }
    assert(spelling_list(paths@) =~= browser_cache_paths(*env));
    CleanTargetDef::new(
        "browser-cache",
        "Browser Caches",
        "Chromium, Chrome, Firefox and Brave HTTP caches.",
        false,
        paths,
    )
}

/// The catalog for `env`.
pub open spec fn registered(env: Environment) -> Seq<Target> {
    seq![
        system_temp_target(env),
        user_cache_target(env),
        cargo_cache_target(env),
        npm_cache_target(env),
        yarn_cache_target(env),
        pnpm_cache_target(env),
        pip_cache_target(env),
        gradle_cache_target(env),
        go_build_target(env),
        xcode_target(env),
        docker_build_target(env),
        browser_cache_target(env),
    ]
}

/// Platform-aware catalog of every clean target.
///
/// Paths that do not exist on this machine are retained (so the `targets`
/// listing can advertise them) and skipped during planning.
pub fn get_registered_targets(env: &Environment) -> (out: Vec<CleanTargetDef>)
    ensures
        target_values(out@) == registered(*env),
{
    let mut out: Vec<CleanTargetDef> = Vec::new();
    out.push(system_temp(env));
    out.push(user_cache(env));
    out.push(cargo_cache(env));
    out.push(npm_cache(env));
    out.push(yarn_cache(env));
    out.push(pnpm_cache(env));
    out.push(pip_cache(env));
    out.push(gradle_cache(env));
    out.push(go_build(env));
    out.push(xcode(env));
    out.push(docker_build(env));
    out.push(browser_cache(env));
    assert(target_values(out@) =~= registered(*env));
    out
}

/// Twelve targets are registered, whatever the machine: the first nine run by
/// default, the last three only on request, and only system temp content has
/// a minimum age.
pub proof fn law_registered_defaults(env: Environment)
    ensures
        registered(env).len() == 12,
        forall|i: int|
            0 <= i < 12 ==> (#[trigger] registered(env)[i]).enabled_by_default == (i < 9),
        forall|i: int|
            0 <= i < 12 ==> (#[trigger] registered(env)[i]).min_age == (if i == 0 {
                Some(SYSTEM_TEMP_MIN_AGE as int)
            } else {
                None
            }),
{
}

/// No two registered targets share an identifier, and none is called `all`.
pub proof fn law_registered_ids(env: Environment)
    ensures
        forall|i: int, j: int|
            0 <= i < j < registered(env).len() ==> (#[trigger] registered(env)[i]).id != (
            #[trigger] registered(env)[j]).id,
        forall|i: int| 0 <= i < registered(env).len() ==> (#[trigger] registered(env)[i]).id != "all"@,
{
    reveal_strlit("all");
    reveal_strlit("system-temp");
    reveal_strlit("user-cache");
    reveal_strlit("cargo-cache");
    reveal_strlit("npm-cache");
    reveal_strlit("yarn-cache");
    reveal_strlit("pnpm-cache");
    reveal_strlit("pip-cache");
    reveal_strlit("gradle-cache");
    reveal_strlit("go-build");
    reveal_strlit("xcode");
    reveal_strlit("docker-build");
    reveal_strlit("browser-cache");
    let list = registered(env);
    assert(list.len() == 12);
    // The length and two characters tell any two identifiers apart.
    let key = |s: Seq<char>| (s.len(), s[0], s[2]);
    assert(key("system-temp"@) == (11nat, 's', 's'));
    assert(key("user-cache"@) == (10nat, 'u', 'e'));
    assert(key("cargo-cache"@) == (11nat, 'c', 'r'));
    assert(key("npm-cache"@) == (9nat, 'n', 'm'));
    assert(key("yarn-cache"@) == (10nat, 'y', 'r'));
    assert(key("pnpm-cache"@) == (10nat, 'p', 'p'));
    assert(key("pip-cache"@) == (9nat, 'p', 'p'));
    assert(key("gradle-cache"@) == (12nat, 'g', 'a'));
    assert(key("go-build"@) == (8nat, 'g', '-'));
    assert(key("xcode"@) == (5nat, 'x', 'o'));
    assert(key("docker-build"@) == (12nat, 'd', 'c'));
    assert(key("browser-cache"@) == (13nat, 'b', 'o'));
    assert forall|i: int, j: int| 0 <= i < j < list.len() implies (#[trigger] list[i]).id != (
    #[trigger] list[j]).id by {
        assert(key(list[i].id) != key(list[j].id));
    }
}

/// A location is reached from its base by joining one name after the other.
pub proof fn law_below(p: Platform, base: Seq<char>, parts: Seq<Seq<char>>, name: Seq<char>)
    ensures
        below(p, base, Seq::empty()) == base,
        below(p, base, parts.push(name)) == joined(p, below(p, base, parts), name),
{
    assert(parts.push(name).drop_last() =~= parts);
}

/// Where all are there, all are kept, in order; where none is, none is.
proof fn lemma_present_all(paths: Seq<Option<Seq<char>>>)
    ensures
        (forall|i: int| 0 <= i < paths.len() ==> (#[trigger] paths[i]) is Some) ==> {
            &&& present(paths).len() == paths.len()
            &&& forall|i: int| 0 <= i < paths.len() ==> #[trigger] present(paths)[i] == paths[i]->0
        },
        (forall|i: int| 0 <= i < paths.len() ==> (#[trigger] paths[i]) is None) ==> present(
            paths,
        ).len() == 0,
    decreases paths.len(),
{
    if paths.len() > 0 {
        let short = paths.drop_last();
        lemma_present_all(short);
        if forall|i: int| 0 <= i < paths.len() ==> (#[trigger] paths[i]) is Some {
            assert forall|i: int| 0 <= i < short.len() implies (#[trigger] short[i]) is Some by {
                assert(paths[i] is Some);
            }
            assert forall|i: int| 0 <= i < paths.len() implies #[trigger] present(paths)[i]
                == paths[i]->0 by {
                if i < short.len() {
                    assert(present(short)[i] == short[i]->0);
                }
            }
        }
        if forall|i: int| 0 <= i < paths.len() ==> (#[trigger] paths[i]) is None {
            assert forall|i: int| 0 <= i < short.len() implies (#[trigger] short[i]) is None by {
                assert(paths[i] is None);
            }
            assert(paths[paths.len() - 1] is None);
        }
    }
}

/// The catalog by name: which targets there are, and which of them run without
/// being asked for. Content of the system's temp directories is left alone for
/// a day, that of no other target.
pub proof fn law_catalog(env: Environment)
    ensures
        registered(env).len() == 12,
        registered(env)[0].id == "system-temp"@ && registered(env)[0].enabled_by_default,
        registered(env)[1].id == "user-cache"@ && registered(env)[1].enabled_by_default,
        registered(env)[2].id == "cargo-cache"@ && registered(env)[2].enabled_by_default,
        registered(env)[3].id == "npm-cache"@ && registered(env)[3].enabled_by_default,
        registered(env)[4].id == "yarn-cache"@ && registered(env)[4].enabled_by_default,
        registered(env)[5].id == "pnpm-cache"@ && registered(env)[5].enabled_by_default,
        registered(env)[6].id == "pip-cache"@ && registered(env)[6].enabled_by_default,
        registered(env)[7].id == "gradle-cache"@ && registered(env)[7].enabled_by_default,
        registered(env)[8].id == "go-build"@ && registered(env)[8].enabled_by_default,
        registered(env)[9].id == "xcode"@ && !registered(env)[9].enabled_by_default,
        registered(env)[10].id == "docker-build"@ && !registered(env)[10].enabled_by_default,
        registered(env)[11].id == "browser-cache"@ && !registered(env)[11].enabled_by_default,
        registered(env)[0].min_age == Some(86_400int),
        forall|i: int| 0 < i < 12 ==> (#[trigger] registered(env)[i]).min_age is None,
{
}

/// The caches that lie at the same place below every home directory.
pub proof fn law_home_caches(env: Environment, home: PathBuf)
    requires
        env.home == Some(home),
    ensures
        ({
            let p = env.platform;
            let base = home@;
            &&& registered(env)[2].paths == seq![
                below(p, base, seq![".cargo"@, "registry"@, "cache"@]),
                below(p, base, seq![".cargo"@, "git"@, "db"@]),
            ]
            &&& registered(env)[7].paths == seq![
                below(p, base, seq![".gradle"@, "caches"@]),
            ]
            &&& registered(env)[10].paths == seq![
                below(p, base, seq![".docker"@, "buildx"@, "refs"@]),
                below(p, base, seq![".docker"@, "buildx"@, "cache"@]),
            ]
        }),
{
    let p = env.platform;
    let base = home@;
    lemma_present_all(cargo_cache_paths(env));
    lemma_present_all(gradle_cache_paths(env));
    lemma_present_all(docker_build_paths(env));
    assert(registered(env)[2].paths =~= seq![
        below(p, base, seq![".cargo"@, "registry"@, "cache"@]),
        below(p, base, seq![".cargo"@, "git"@, "db"@]),
    ]);
    assert(registered(env)[7].paths =~= seq![
        below(p, base, seq![".gradle"@, "caches"@]),
    ]);
    assert(registered(env)[10].paths =~= seq![
        below(p, base, seq![".docker"@, "buildx"@, "refs"@]),
        below(p, base, seq![".docker"@, "buildx"@, "cache"@]),
    ]);
}

/// The caches that lie below the home directory on Linux.
pub proof fn law_linux_caches(env: Environment, home: PathBuf)
    requires
        env.home == Some(home),
        env.platform == Platform::Linux,
    ensures
        ({
            let p = env.platform;
            let base = home@;
            &&& registered(env)[3].paths == seq![
                below(p, base, seq![".npm"@, "_cacache"@]),
            ]
            &&& registered(env)[4].paths == seq![
                below(p, base, seq![".cache"@, "yarn"@]),
            ]
            &&& registered(env)[5].paths == seq![
                below(p, base, seq![".local"@, "share"@, "pnpm"@, "store"@]),
            ]
            &&& registered(env)[6].paths == seq![
                below(p, base, seq![".cache"@, "pip"@]),
            ]
            &&& registered(env)[8].paths == seq![
                below(p, base, seq![".cache"@, "go-build"@]),
            ]
            &&& registered(env)[11].paths == seq![
                below(p, base, seq![".cache"@, "google-chrome"@]),
                below(p, base, seq![".cache"@, "mozilla"@]),
                below(p, base, seq![".cache"@, "BraveSoftware"@]),
                below(p, base, seq![".cache"@, "chromium"@]),
            ]
        }),
{
    let p = env.platform;
    let base = home@;
    lemma_present_all(npm_cache_paths(env));
    lemma_present_all(yarn_cache_paths(env));
    lemma_present_all(pnpm_cache_paths(env));
    lemma_present_all(pip_cache_paths(env));
    lemma_present_all(go_build_paths(env));
    lemma_present_all(browser_cache_paths(env));
    assert(registered(env)[3].paths =~= seq![
        below(p, base, seq![".npm"@, "_cacache"@]),
    ]);
    assert(registered(env)[4].paths =~= seq![
        below(p, base, seq![".cache"@, "yarn"@]),
    ]);
    assert(registered(env)[5].paths =~= seq![
        below(p, base, seq![".local"@, "share"@, "pnpm"@, "store"@]),
    ]);
    assert(registered(env)[6].paths =~= seq![
        below(p, base, seq![".cache"@, "pip"@]),
    ]);
    assert(registered(env)[8].paths =~= seq![
        below(p, base, seq![".cache"@, "go-build"@]),
    ]);
    assert(registered(env)[11].paths =~= seq![
        below(p, base, seq![".cache"@, "google-chrome"@]),
        below(p, base, seq![".cache"@, "mozilla"@]),
        below(p, base, seq![".cache"@, "BraveSoftware"@]),
        below(p, base, seq![".cache"@, "chromium"@]),
    ]);
}

/// The caches that lie below the home directory on macOS.
pub proof fn law_macos_caches(env: Environment, home: PathBuf)
    requires
        env.home == Some(home),
        env.platform == Platform::Macos,
    ensures
        ({
            let p = env.platform;
            let base = home@;
            &&& registered(env)[3].paths == seq![
                below(p, base, seq![".npm"@, "_cacache"@]),
            ]
            &&& registered(env)[4].paths == seq![
                below(p, base, seq!["Library"@, "Caches"@, "Yarn"@]),
            ]
            &&& registered(env)[5].paths == seq![
                below(p, base, seq!["Library"@, "pnpm"@, "store"@]),
            ]
            &&& registered(env)[6].paths == seq![
                below(p, base, seq!["Library"@, "Caches"@, "pip"@]),
            ]
            &&& registered(env)[8].paths == seq![
                below(p, base, seq![".cache"@, "go-build"@]),
            ]
            &&& registered(env)[9].paths == seq![
                below(p, base, seq!["Library"@, "Developer"@, "Xcode"@, "DerivedData"@]),
            ]
        }),
{
    let p = env.platform;
    let base = home@;
    lemma_present_all(npm_cache_paths(env));
    lemma_present_all(yarn_cache_paths(env));
    lemma_present_all(pnpm_cache_paths(env));
    lemma_present_all(pip_cache_paths(env));
    lemma_present_all(go_build_paths(env));
    lemma_present_all(xcode_paths(env));
    assert(registered(env)[3].paths =~= seq![
        below(p, base, seq![".npm"@, "_cacache"@]),
    ]);
    assert(registered(env)[4].paths =~= seq![
        below(p, base, seq!["Library"@, "Caches"@, "Yarn"@]),
    ]);
    assert(registered(env)[5].paths =~= seq![
        below(p, base, seq!["Library"@, "pnpm"@, "store"@]),
    ]);
    assert(registered(env)[6].paths =~= seq![
        below(p, base, seq!["Library"@, "Caches"@, "pip"@]),
    ]);
    assert(registered(env)[8].paths =~= seq![
        below(p, base, seq![".cache"@, "go-build"@]),
    ]);
    assert(registered(env)[9].paths =~= seq![
        below(p, base, seq!["Library"@, "Developer"@, "Xcode"@, "DerivedData"@]),
    ]);
}

/// The caches that lie below the home directory on Windows.
pub proof fn law_windows_home_caches(env: Environment, home: PathBuf)
    requires
        env.home == Some(home),
        env.platform == Platform::Windows,
    ensures
        ({
            let p = env.platform;
            let base = home@;
            &&& registered(env)[4].paths == seq![
                below(p, base, seq!["Yarn"@, "Cache"@]),
            ]
            &&& registered(env)[6].paths == seq![
                below(p, base, seq!["pip"@, "Cache"@]),
            ]
        }),
{
    let p = env.platform;
    let base = home@;
    lemma_present_all(yarn_cache_paths(env));
    lemma_present_all(pip_cache_paths(env));
    assert(registered(env)[4].paths =~= seq![
        below(p, base, seq!["Yarn"@, "Cache"@]),
    ]);
    assert(registered(env)[6].paths =~= seq![
        below(p, base, seq!["pip"@, "Cache"@]),
    ]);
}

/// The browser caches on macOS, which lie in the cache directory.
pub proof fn law_macos_browsers(env: Environment, cache: PathBuf)
    requires
        env.cache_dir == Some(cache),
        env.platform == Platform::Macos,
    ensures
        ({
            let p = env.platform;
            let base = cache@;
            &&& registered(env)[11].paths == seq![
                below(p, base, seq!["Google"@, "Chrome"@]),
                below(p, base, seq!["Firefox"@]),
                below(p, base, seq!["BraveSoftware"@, "Brave-Browser"@]),
                below(p, base, seq!["Chromium"@]),
            ]
        }),
{
    let p = env.platform;
    let base = cache@;
    lemma_present_all(browser_cache_paths(env));
    assert(registered(env)[11].paths =~= seq![
        below(p, base, seq!["Google"@, "Chrome"@]),
        below(p, base, seq!["Firefox"@]),
        below(p, base, seq!["BraveSoftware"@, "Brave-Browser"@]),
        below(p, base, seq!["Chromium"@]),
    ]);
}

/// The caches that lie below `%LOCALAPPDATA%` on Windows.
pub proof fn law_windows_caches(env: Environment, data: PathBuf)
    requires
        env.local_app_data == Some(data),
        env.platform == Platform::Windows,
    ensures
        ({
            let p = env.platform;
            let base = data@;
            &&& registered(env)[1].paths == seq![
                below(p, base, seq!["Microsoft"@, "Windows"@, "INetCache"@]),
            ]
            &&& registered(env)[3].paths == seq![
                below(p, base, seq!["npm-cache"@]),
            ]
            &&& registered(env)[5].paths == seq![
                below(p, base, seq!["pnpm"@, "store"@]),
            ]
            &&& registered(env)[8].paths == seq![
                below(p, base, seq!["go-build"@]),
            ]
            &&& registered(env)[11].paths == seq![
                below(p, base, seq!["Google"@, "Chrome"@, "User Data"@, "Default"@, "Cache"@]),
                below(p, base, seq!["Mozilla"@, "Firefox"@]),
            ]
        }),
{
    let p = env.platform;
    let base = data@;
    lemma_present_all(user_cache_paths(env));
    lemma_present_all(npm_cache_paths(env));
    lemma_present_all(pnpm_cache_paths(env));
    lemma_present_all(go_build_paths(env));
    lemma_present_all(browser_cache_paths(env));
    assert(registered(env)[1].paths =~= seq![
        below(p, base, seq!["Microsoft"@, "Windows"@, "INetCache"@]),
    ]);
    assert(registered(env)[3].paths =~= seq![
        below(p, base, seq!["npm-cache"@]),
    ]);
    assert(registered(env)[5].paths =~= seq![
        below(p, base, seq!["pnpm"@, "store"@]),
    ]);
    assert(registered(env)[8].paths =~= seq![
        below(p, base, seq!["go-build"@]),
    ]);
    assert(registered(env)[11].paths =~= seq![
        below(p, base, seq!["Google"@, "Chrome"@, "User Data"@, "Default"@, "Cache"@]),
        below(p, base, seq!["Mozilla"@, "Firefox"@]),
    ]);
}

/// Where temporary files and the user's cache lie, and that Xcode keeps
/// nothing but on macOS.
pub proof fn law_machine_caches(env: Environment)
    ensures
        env.platform == Platform::Linux || env.platform == Platform::Macos ==> registered(
            env,
        )[0].paths == seq!["/tmp"@, "/var/tmp"@],
        env.platform == Platform::Windows && env.local_app_data is None ==> registered(
            env,
        )[0].paths == seq![env.temp_dir@],
        env.platform == Platform::Windows && env.local_app_data is Some ==> registered(
            env,
        )[0].paths == seq![
            env.temp_dir@,
            joined(env.platform, env.local_app_data->0@, "Temp"@),
        ],
        env.platform != Platform::Windows && env.cache_dir is Some ==> registered(env)[1].paths
            == seq![env.cache_dir->0@],
        env.platform != Platform::Windows && env.cache_dir is None ==> registered(
            env,
        )[1].paths.len() == 0,
        env.platform != Platform::Macos ==> registered(env)[9].paths.len() == 0,
{
    lemma_present_all(system_temp_paths(env));
    lemma_present_all(user_cache_paths(env));
    lemma_present_all(xcode_paths(env));
    if env.local_app_data is Some {
        law_below(env.platform, env.local_app_data->0@, Seq::empty(), "Temp"@);
        assert(seq!["Temp"@] =~= Seq::empty().push("Temp"@));
    }
}

/// Without a home directory nothing is looked for below one.
pub proof fn law_no_home(env: Environment)
    requires
        env.home is None,
    ensures
        registered(env)[2].paths.len() == 0,
        registered(env)[4].paths.len() == 0,
        registered(env)[6].paths.len() == 0,
        registered(env)[7].paths.len() == 0,
        registered(env)[9].paths.len() == 0,
        registered(env)[10].paths.len() == 0,
        env.platform != Platform::Windows ==> registered(env)[3].paths.len() == 0
            && registered(env)[5].paths.len() == 0 && registered(env)[8].paths.len() == 0,
{
    lemma_present_all(cargo_cache_paths(env));
    lemma_present_all(npm_cache_paths(env));
    lemma_present_all(yarn_cache_paths(env));
    lemma_present_all(pnpm_cache_paths(env));
    lemma_present_all(pip_cache_paths(env));
    lemma_present_all(gradle_cache_paths(env));
    lemma_present_all(go_build_paths(env));
    lemma_present_all(xcode_paths(env));
    lemma_present_all(docker_build_paths(env));
}

} // verus!
