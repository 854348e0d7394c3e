//! Paths as text, on each family of platforms.

use diskpulse::path::{Component, PathBuf, Platform};

const UNIX: Platform = Platform::Linux;
const WINDOWS: Platform = Platform::Windows;

fn path(text: &str) -> PathBuf {
    PathBuf::new(text)
}

#[test]
fn components_are_compared_not_spellings() {
    assert!(path("/a//b/./c/").same_as(&path("/a/b/c"), UNIX));
    assert!(!path("a/b").same_as(&path("/a/b"), UNIX));
    assert!(path("C:/Users\\me").same_as(&path("C:\\Users\\me"), WINDOWS));
    assert!(!path("C:\\a").same_as(&path("C:a"), WINDOWS));
    assert!(!path("/a/../b").same_as(&path("/b"), UNIX));
}

#[test]
fn prefixes_end_at_component_boundaries() {
    assert!(path("/var/tmp/x").starts_with(&path("/var/tmp"), UNIX));
    assert!(path("/var/tmp").starts_with(&path("/var/tmp/"), UNIX));
    assert!(!path("/var/tmpfile").starts_with(&path("/var/tmp"), UNIX));
    assert!(!path("/var").starts_with(&path("/var/tmp"), UNIX));
    assert!(path("C:\\Windows\\System32").starts_with(&path("C:\\Windows"), WINDOWS));
    assert!(!path("D:\\Windows").starts_with(&path("C:\\Windows"), WINDOWS));
}

#[test]
fn parents_and_names_follow_the_last_component() {
    let deep = path("/home/alice/file.txt");
    assert_eq!(deep.file_name(UNIX).as_deref(), Some("file.txt"));
    assert!(deep.parent(UNIX).unwrap().same_as(&path("/home/alice"), UNIX));
    assert!(deep.has_parent(UNIX));
    assert!(!path("/").has_parent(UNIX));
    assert!(path("/").parent(UNIX).is_none());
    assert!(path("/").file_name(UNIX).is_none());
    assert!(path("a/..").file_name(UNIX).is_none());
    assert!(!path("C:\\").has_parent(WINDOWS));
    assert!(path("C:\\a").has_parent(WINDOWS));
    assert_eq!(path("C:\\a\\b").file_name(WINDOWS).as_deref(), Some("b"));
}

#[test]
fn absolute_paths_have_an_anchor() {
    assert!(path("/etc").is_absolute(UNIX));
    assert!(!path("etc").is_absolute(UNIX));
    assert!(path("C:\\etc").is_absolute(WINDOWS));
    assert!(!path("\\etc").is_absolute(WINDOWS));
    assert!(!path("C:etc").is_absolute(WINDOWS));
    assert!(path("\\\\server\\share\\x").is_absolute(WINDOWS));
}

#[test]
fn joining_adds_one_separator() {
    assert_eq!(path("/a").join("b", UNIX).text, "/a/b");
    assert_eq!(path("/a/").join("b", UNIX).text, "/a/b");
    assert_eq!(path("").join("b", UNIX).text, "b");
    assert_eq!(path("/a").join("/b", UNIX).text, "/b");
    assert_eq!(path("C:\\a").join("b", WINDOWS).text, "C:\\a\\b");
}

#[test]
fn the_parent_is_a_beginning_of_the_spelling() {
    for (platform, text, parent) in [
        (UNIX, "/home//alice", "/home"),
        (UNIX, "//home///alice/", "//home"),
        (UNIX, "/alice", "/"),
        (UNIX, "a/./b/.", "a"),
        (UNIX, "/a/..", "/a"),
        (UNIX, "./a", "."),
        (UNIX, ".", ""),
        (UNIX, "a", ""),
        (WINDOWS, "c:\\Users\\\\me", "c:\\Users"),
        (WINDOWS, "c:/Users/me", "c:/Users"),
        (WINDOWS, "C:\\a", "C:\\"),
        (WINDOWS, "C:a", "C:"),
        (WINDOWS, "C:.\\a", "C:."),
        (WINDOWS, r"\\server\share\x", r"\\server\share\"),
        (WINDOWS, r"\\?\C:\a\.\b", r"\\?\C:\a\."),
        (WINDOWS, r"\\?\C:\a/b", r"\\?\C:\"),
    ] {
        let found = path(text).parent(platform).expect("a parent");
        assert_eq!(found.text, parent, "parent of {text}");
        assert_eq!(
            found.components(platform).len() + 1,
            path(text).components(platform).len(),
            "components of {text}"
        );
    }
    for bare in ["C:", "C:\\", "C:.", r"\\server\share", r"\\?\C:", r"\\?\C:\", r"\\.\COM1"] {
        assert!(path(bare).parent(WINDOWS).is_none(), "{bare} has no parent");
    }
}

#[test]
fn unix_paths_are_read_as_the_platform_reads_them() {
    let pieces = ["", "/", "//", ".", "..", "a", "bc", "./", "/.", "C:", "\\", ".a"];
    for x in pieces {
        for y in pieces {
            for z in pieces {
                for w in ["", "/", "d"] {
                    let text = format!("{x}{y}{z}{w}");
                    let theirs = std::path::Path::new(&text);
                    let ours = path(&text);
                    assert_eq!(ours.components(UNIX).len(), theirs.components().count(), "{text}");
                    assert_eq!(
                        ours.parent(UNIX).map(|p| p.text),
                        theirs.parent().map(|p| p.to_str().unwrap().to_string()),
                        "{text}"
                    );
                    assert_eq!(
                        ours.file_name(UNIX).as_deref(),
                        theirs.file_name().map(|n| n.to_str().unwrap()),
                        "{text}"
                    );
                    assert_eq!(ours.is_absolute(UNIX), theirs.is_absolute(), "{text}");
                    assert_eq!(
                        ours.join(z, UNIX).text,
                        theirs.join(z).to_str().unwrap(),
                        "{text} and {z}"
                    );
                    let other = format!("{x}{y}");
                    assert_eq!(
                        ours.starts_with(&path(&other), UNIX),
                        theirs.starts_with(&other),
                        "{text} under {other}"
                    );
                }
            }
        }
    }
}

fn shape(text: &str) -> Vec<String> {
    path(text)
        .components(WINDOWS)
        .iter()
        .map(|component| match component {
            Component::Prefix(prefix) => {
                format!("{:?}({},{})", prefix.kind, prefix.name, prefix.share)
            }
            Component::RootDir => "root".to_string(),
            Component::CurDir => ".".to_string(),
            Component::ParentDir => "..".to_string(),
            Component::Normal(name) => name.clone(),
        })
        .collect()
}

#[test]
fn windows_prefixes_are_told_apart() {
    assert_eq!(shape(r"c:\x"), ["Disk(C,)", "root", "x"]);
    assert_eq!(shape(r"c:x\.\y"), ["Disk(C,)", "x", "y"]);
    assert_eq!(shape(r"\\srv\share"), ["Share(srv,share)", "root"]);
    assert_eq!(shape("//srv/share/x"), ["Share(srv,share)", "root", "x"]);
    assert_eq!(shape(r"\\srv"), ["root", "srv"]);
    assert_eq!(shape(r"\\.\COM1\x"), ["Device(COM1,)", "root", "x"]);
    assert_eq!(shape(r"\\?\UNC\srv\share\x"), ["VerbatimShare(srv,share)", "root", "x"]);
    assert_eq!(shape(r"\\?\UNC\srv"), ["VerbatimShare(srv,)"]);
    assert_eq!(shape(r"\\?\c:\x"), ["VerbatimDisk(C,)", "root", "x"]);
    assert_eq!(shape(r"\\?\c:"), ["VerbatimDisk(C,)"]);
    assert_eq!(shape(r"\\?\c:x\y"), ["Verbatim(c:x,)", "root", "y"]);
    assert_eq!(shape(r"\\?\pics\of"), ["Verbatim(pics,)", "root", "of"]);
    // Spelled with `/`, the same beginning is an ordinary share.
    assert_eq!(shape("//?/c:/x"), ["Share(?,c:)", "root", "x"]);
    assert!(!path("//?/c:/x").same_as(&path(r"\\?\c:\x"), WINDOWS));
    assert!(!path(r"c:\x").same_as(&path(r"\\?\c:\x"), WINDOWS));
    assert!(path(r"c:\x").same_as(&path(r"C:\x"), WINDOWS));
    assert!(path(r"\\?\c:\x").same_as(&path(r"\\?\C:\x"), WINDOWS));
    assert!(!path(r"\\srv\share").same_as(&path(r"\\SRV\share"), WINDOWS));
}

#[test]
fn verbatim_paths_are_taken_as_they_stand() {
    assert_eq!(shape(r"\\?\c:\a/b\.\..\d"), ["VerbatimDisk(C,)", "root", "a/b", ".", "..", "d"]);
    assert_eq!(shape(r"c:\a/b\.\..\d"), ["Disk(C,)", "root", "a", "b", "..", "d"]);
    assert_eq!(path(r"\\?\c:\a").join(r"b\..\.\e/f", WINDOWS).text, r"\\?\c:\a\e\f");
    assert_eq!(path(r"\\?\c:\a").join(r"\b", WINDOWS).text, r"\\?\c:\b");
    assert_eq!(path(r"\\?\c:\a").join("", WINDOWS).text, r"\\?\c:\a\");
    assert_eq!(path(r"\\?\c:\a").join(r"d:\b", WINDOWS).text, r"d:\b");
    assert_eq!(path(r"c:\a").join(r"\b", WINDOWS).text, r"c:\b");
    assert_eq!(path("c:").join("b", WINDOWS).text, "c:b");
    assert_eq!(path(r"\\?\c:\a").prefix_text(WINDOWS), r"\\?\c:");
    assert!(path(r"\\?\pics").is_absolute(WINDOWS));
    assert!(path(r"\\.\COM1").is_absolute(WINDOWS));
}
