//! The safety jail: protected roots, personal data, temp areas, traversal.

use diskpulse::cleaner::{
    cleanable_temp_prefixes, ensure_safe_location, lexical_normalize, protected_user_dirs,
    static_system_roots, strip_verbatim_prefix, system_roots, validate_path_safety,
    windows_dynamic_system_roots, JailContext, UserDirectories, WindowsVariables,
};
use diskpulse::errors::SafetyError;
use diskpulse::path::{PathBuf, Platform};

fn no_user_dirs() -> UserDirectories {
    UserDirectories {
        document: None,
        desktop: None,
        download: None,
        audio: None,
        picture: None,
        video: None,
    }
}

fn no_variables() -> WindowsVariables {
    WindowsVariables {
        system_drive: None,
        system_root: None,
        windir: None,
        program_files: None,
        program_files_x86: None,
        program_w6432: None,
    }
}

fn unix_jail() -> JailContext {
    let p = Platform::Linux;
    let home = Some(PathBuf::new("/home/alice"));
    let canonical = static_system_roots(p).iter().map(|r| Some(r.clone())).collect();
    let roots = system_roots(p, &no_variables(), &canonical);
    let temp = cleanable_temp_prefixes(
        p,
        &roots,
        &home,
        &vec![Some(PathBuf::new("/tmp")), Some(PathBuf::new("/var/tmp"))],
        &PathBuf::new("/tmp"),
        &Some(PathBuf::new("/tmp")),
    );
    let user_dirs = protected_user_dirs(p, &home, &no_user_dirs());
    JailContext {
        platform: p,
        system_roots: roots,
        temp_prefixes: temp,
        home,
        user_dirs,
        current_dir: Some(PathBuf::new("/work")),
    }
}

fn windows_jail() -> JailContext {
    let p = Platform::Windows;
    let home = Some(PathBuf::new("C:\\Users\\me"));
    let roots = system_roots(p, &no_variables(), &vec![None, None, None, None]);
    let temp = cleanable_temp_prefixes(
        p,
        &roots,
        &home,
        &vec![],
        &PathBuf::new("C:\\Users\\me\\AppData\\Local\\Temp"),
        &None,
    );
    let user_dirs = protected_user_dirs(p, &home, &no_user_dirs());
    JailContext {
        platform: p,
        system_roots: roots,
        temp_prefixes: temp,
        home,
        user_dirs,
        current_dir: Some(PathBuf::new("C:\\work")),
    }
}

fn judge(path: &str) -> Result<(), SafetyError> {
    ensure_safe_location(&unix_jail(), &PathBuf::new(path))
}

fn validate(path: &str) -> Result<(), SafetyError> {
    validate_path_safety(&unix_jail(), &PathBuf::new(path), &None)
}

#[test]
fn jail_blocks_parentless_drive_and_filesystem_roots() {
    let err = judge("/").expect_err("parentless roots must be blocked");
    assert!(matches!(err, SafetyError::ProtectedSystemPath(_)), "{err:?}");
    for drive in ["C:\\", "D:\\", "D:", "\\\\srv\\share"] {
        let err = ensure_safe_location(&windows_jail(), &PathBuf::new(drive))
            .expect_err("drive roots must be blocked");
        assert!(matches!(err, SafetyError::ProtectedSystemPath(_)), "{err:?}");
    }
}

#[test]
fn lexical_normalize_resolves_dots_without_fs() {
    let p = Platform::Linux;
    let cwd = Some(PathBuf::new("/work"));
    let normalized = lexical_normalize(p, &PathBuf::new("/tmp/a/./b/../c"), &cwd);
    assert!(normalized.is_absolute(p));
    assert_eq!(normalized, PathBuf::new("/tmp/a/c"));

    let above_root = lexical_normalize(p, &PathBuf::new("/../.."), &cwd);
    assert!(above_root.is_absolute(p));
    assert_eq!(above_root, PathBuf::new("/"));

    let absolute = lexical_normalize(p, &PathBuf::new("relative/x"), &cwd);
    assert!(absolute.is_absolute(p));
    assert_eq!(absolute, PathBuf::new("/work/relative/x"));

    let w = Platform::Windows;
    let cwd = Some(PathBuf::new("D:\\work"));
    let normalized = lexical_normalize(w, &PathBuf::new("/tmp/a/./b/../c"), &cwd);
    assert!(normalized.is_absolute(w));
    assert_eq!(normalized, PathBuf::new("D:\\tmp\\a\\c"));
}

#[test]
fn jail_blocks_system_roots() {
    for root in static_system_roots(Platform::Linux) {
        let err = ensure_safe_location(&unix_jail(), &root).expect_err("system roots must be blocked");
        assert!(matches!(err, SafetyError::ProtectedSystemPath(_)), "{err:?}");
    }
    for root in static_system_roots(Platform::Windows) {
        let err =
            ensure_safe_location(&windows_jail(), &root).expect_err("system roots must be blocked");
        assert!(matches!(err, SafetyError::ProtectedSystemPath(_)), "{err:?}");
    }
}

#[test]
fn jail_blocks_home_and_user_data_but_allows_cache() {
    assert!(matches!(
        judge("/home/alice"),
        Err(SafetyError::ProtectedHomeRoot(_))
    ));
    assert!(matches!(
        judge("/home/alice/Documents"),
        Err(SafetyError::ProtectedUserData(_))
    ));
    // Contents of personal folders are protected too.
    assert!(matches!(
        judge("/home/alice/Documents/report.pdf"),
        Err(SafetyError::ProtectedUserData(_))
    ));
    assert!(judge("/home/alice/.cache/diskpulse_test").is_ok());
}

#[test]
fn verbatim_prefixes_are_stripped_before_comparison() {
    let w = Platform::Windows;
    assert_eq!(
        strip_verbatim_prefix(w, PathBuf::new(r"\\?\C:\Users\me")),
        PathBuf::new(r"C:\Users\me")
    );
    assert_eq!(
        strip_verbatim_prefix(w, PathBuf::new(r"\\?\UNC\srv\share")),
        PathBuf::new(r"\\srv\share")
    );
    let plain = PathBuf::new("/tmp/unchanged");
    assert_eq!(strip_verbatim_prefix(Platform::Linux, plain.clone()), plain);
    // A canonical home is recognised behind its verbatim spelling.
    assert!(matches!(
        validate_path_safety(
            &windows_jail(),
            &PathBuf::new("x"),
            &Some(PathBuf::new(r"\\?\C:\Users\me"))
        ),
        Err(SafetyError::ProtectedHomeRoot(_))
    ));
}

#[test]
fn validate_path_safety_canonicalizes_before_checking() {
    // A path that does not exist still normalizes lexically.
    assert!(validate("/home/alice/.cache/diskpulse_test").is_ok());
    // A path that exists is judged where it leads.
    assert!(validate_path_safety(
        &unix_jail(),
        &PathBuf::new("/tmp/link"),
        &Some(PathBuf::new("/home/alice"))
    )
    .is_err());
}

#[test]
fn safety_jail_rejects_protected_locations() {
    assert!(validate("/home/alice").is_err(), "home root refused");
    assert!(validate("/home/alice/Documents").is_err(), "Documents refused");
    assert!(
        validate("/home/alice/Documents/a.txt").is_err(),
        "contents of Documents refused"
    );
    assert!(validate("/home/alice/.cache/anything").is_ok());

    assert!(validate("/var").is_err());
    assert!(validate("/usr").is_err());
    assert!(validate("/tmp/diskpulse_jail_probe").is_ok());
    assert!(validate_path_safety(
        &windows_jail(),
        &PathBuf::new("C:\\Windows\\System32"),
        &None
    )
    .is_err());
}

#[test]
fn filesystem_roots_are_rejected() {
    for root in [
        "/", "/bin", "/sbin", "/usr", "/usr/bin", "/etc", "/var", "/lib", "/boot", "/dev", "/sys",
        "/proc",
    ] {
        let err = validate(root).expect_err(root);
        assert!(
            matches!(err, SafetyError::ProtectedSystemPath(_)),
            "{root} classified as {err:?}"
        );
    }
}

#[test]
fn contents_of_protected_system_roots_are_rejected() {
    let err = validate("/usr/bin/env").expect_err("/usr/bin/env");
    assert!(matches!(err, SafetyError::ProtectedSystemPath(_)));
}

#[test]
fn home_root_is_rejected() {
    let err = validate("/home/alice").expect_err("home root");
    assert!(
        matches!(err, SafetyError::ProtectedHomeRoot(_)),
        "home classified as {err:?}"
    );
    // However it is spelled.
    assert!(validate("/home//alice/").is_err());
    assert!(validate("/home").is_err(), "the directory of all homes");
}

#[test]
fn personal_data_dirs_and_their_contents_are_rejected() {
    let dirs = UserDirectories {
        document: Some(PathBuf::new("/data/papers")),
        desktop: Some(PathBuf::new("/data/desk")),
        download: None,
        audio: None,
        picture: None,
        video: None,
    };
    let mut jail = unix_jail();
    jail.user_dirs = protected_user_dirs(jail.platform, &jail.home, &dirs);
    for dir in [
        "/data/papers",
        "/data/desk",
        "/home/alice/Documents",
        "/home/alice/Desktop",
        "/home/alice/Downloads",
        "/home/alice/Music",
        "/home/alice/Pictures",
        "/home/alice/Videos",
    ] {
        for suffix in ["", "/diskpulse-must-not-touch.txt"] {
            let path = PathBuf::new(&format!("{dir}{suffix}"));
            match validate_path_safety(&jail, &path, &None) {
                Err(SafetyError::ProtectedUserData(found)) => assert_eq!(found, PathBuf::new(dir)),
                other => panic!("{dir} classified as {other:?}"),
            }
        }
    }
    assert!(validate_path_safety(&jail, &PathBuf::new("/data/papers2"), &None).is_ok());
}

#[test]
fn cache_subpaths_under_home_are_allowed() {
    for safe in [
        "/home/alice/.cache/diskpulse_test",
        "/home/alice/.cargo/registry/cache",
        "/home/alice/.npm/_cacache",
    ] {
        assert!(validate(safe).is_ok(), "{safe} wrongly rejected");
    }
}

#[test]
fn traversal_into_system_root_is_canonicalized_then_rejected() {
    let mut path = "/tmp/ws/cache".to_string();
    for _ in 0..40 {
        path.push_str("/..");
    }
    path.push_str("/etc");
    let err = validate(&path).expect_err("root escape via ..");
    assert!(
        matches!(err, SafetyError::ProtectedSystemPath(_)),
        "traversal classified as {err:?}"
    );
}

#[test]
fn traversal_between_personal_dirs_is_rejected() {
    let err = validate("/home/alice/.cache/diskpulse_test/../../Documents")
        .expect_err(".cache -> Documents traversal");
    assert!(matches!(err, SafetyError::ProtectedUserData(_)));
}

#[test]
fn symlink_escape_is_judged_by_target_location() {
    let err = validate_path_safety(
        &unix_jail(),
        &PathBuf::new("/tmp/ws/cache/evil-docs-link"),
        &Some(PathBuf::new("/home/alice/Documents")),
    )
    .expect_err("link into Documents");
    assert!(matches!(err, SafetyError::ProtectedUserData(_)));
}

#[test]
fn poisoned_temp_directories_open_nothing() {
    let p = Platform::Linux;
    let jail = unix_jail();
    for poisoned in ["/", "/etc", "/home/alice", "/home", "//", "/usr/"] {
        let prefixes = cleanable_temp_prefixes(
            p,
            &jail.system_roots,
            &jail.home,
            &vec![None, None],
            &PathBuf::new(poisoned),
            &None,
        );
        assert_eq!(
            prefixes,
            vec![PathBuf::new("/tmp"), PathBuf::new("/var/tmp")],
            "{poisoned} was trusted"
        );
    }
    let prefixes = cleanable_temp_prefixes(
        p,
        &jail.system_roots,
        &jail.home,
        &vec![Some(PathBuf::new("/private/tmp")), None],
        &PathBuf::new("/var/folders/x"),
        &Some(PathBuf::new("/private/var/folders/x")),
    );
    assert_eq!(
        prefixes,
        vec![
            PathBuf::new("/private/tmp"),
            PathBuf::new("/var/tmp"),
            PathBuf::new("/var/folders/x"),
            PathBuf::new("/private/var/folders/x"),
        ]
    );
}

#[test]
fn system_roots_keep_both_spellings() {
    let mut canonical: Vec<Option<PathBuf>> = static_system_roots(Platform::Macos)
        .iter()
        .map(|_| None)
        .collect();
    canonical[5] = Some(PathBuf::new("/private/etc"));
    canonical[6] = Some(PathBuf::new("/lib/"));
    let roots = system_roots(Platform::Macos, &no_variables(), &canonical);
    assert_eq!(roots.len(), 13);
    assert_eq!(roots[5], PathBuf::new("/private/etc"));
    assert_eq!(roots[6], PathBuf::new("/etc"));
    assert_eq!(roots[7], PathBuf::new("/lib"));
}

#[test]
fn windows_variables_name_system_roots() {
    let vars = WindowsVariables {
        system_drive: Some(" D: ".to_string()),
        system_root: Some("D:\\Windows".to_string()),
        windir: Some("   ".to_string()),
        program_files: None,
        program_files_x86: Some("E:\\Programs".to_string()),
        program_w6432: None,
    };
    let roots = windows_dynamic_system_roots(&vars);
    assert_eq!(
        roots,
        vec![
            PathBuf::new("D:\\"),
            PathBuf::new("D:\\Windows"),
            PathBuf::new("D:\\Windows"),
            PathBuf::new("E:\\Programs"),
        ]
    );
    let blank = WindowsVariables {
        system_drive: Some(String::new()),
        ..no_variables()
    };
    assert_eq!(
        windows_dynamic_system_roots(&blank),
        vec![PathBuf::new("C:\\"), PathBuf::new("C:\\Windows")]
    );
}

#[test]
fn temp_areas_below_system_roots_are_cleanable() {
    assert!(judge("/var/tmp/x").is_ok());
    assert!(judge("/var/tmpx").is_err());
    assert!(judge("/tmp").is_ok());
    // The carve-out does not reach personal data.
    let mut jail = unix_jail();
    jail.user_dirs.push(PathBuf::new("/tmp/desk"));
    assert!(ensure_safe_location(&jail, &PathBuf::new("/tmp/desk/a")).is_err());
}

#[test]
fn the_directory_above_home_is_reported_as_home_spells_it() {
    let mut jail = unix_jail();
    jail.home = Some(PathBuf::new("//home///alice/"));
    match ensure_safe_location(&jail, &PathBuf::new("/home")) {
        Err(SafetyError::ProtectedSystemPath(path)) => assert_eq!(path, PathBuf::new("//home")),
        other => panic!("unexpected outcome: {other:?}"),
    }
    let mut jail = windows_jail();
    jail.home = Some(PathBuf::new("c:\\Users\\\\me"));
    match ensure_safe_location(&jail, &PathBuf::new("C:\\Users\\")) {
        Err(SafetyError::ProtectedSystemPath(path)) => {
            assert_eq!(path, PathBuf::new("c:\\Users"))
        }
        other => panic!("unexpected outcome: {other:?}"),
    }
}

#[test]
fn lexical_normalization_keeps_the_spelling_of_the_prefix() {
    let w = Platform::Windows;
    for (text, expected) in [
        (r"c:\a\.\b\..\c", r"c:\a\c"),
        (r"c:/a//b/", r"c:\a\b"),
        (r"c:\..\..", r"c:\"),
        (r"\\srv\share", r"\\srv\share\"),
        ("//srv/share/a/../b", r"//srv/share\b"),
        (r"\\?\c:\a\..\b", r"\\?\c:\b"),
        (r"\\?\c:\a/b", r"\\?\c:\a\b"),
        (r"\\?\UNC\srv\share\x\.", r"\\?\UNC\srv\share\x"),
        (r"\\.\COM1", r"\\.\COM1\"),
        // A name with a drive of its own replaces what stands before it.
        (r"c:\a\d:\b", "d:b"),
    ] {
        let once = lexical_normalize(w, &PathBuf::new(text), &None);
        assert_eq!(once, PathBuf::new(expected), "from {text}");
    }
    let once = lexical_normalize(w, &PathBuf::new(r"c:\a\..\b"), &None);
    assert_eq!(lexical_normalize(w, &once, &None), once);
}
