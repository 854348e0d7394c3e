//! Name rules, judgement of entries, and assembly of the tree.

use diskpulse::cli::VizArgs;
use diskpulse::errors::{DiskPulseError, IoError, IoErrorKind, ParseError, ScanError};
use diskpulse::models::{DirectoryNode, ScanResult};
use diskpulse::path::{PathBuf, Platform};
use diskpulse::scanner::{
    can_assemble, is_ignored_name, judge_entry, matches_glob, scan_path, FlatEntry, Judgement,
    ScanFailure, ScanOptions, ScanReading, SortCriterion, WalkFacts,
};
use diskpulse::util::Metadata;

const KIB: u64 = 1024;
const MIB: u64 = 1024 * 1024;

fn base_options() -> ScanOptions {
    ScanOptions {
        max_depth: usize::MAX,
        min_size: None,
        top_n: None,
        apparent_size: false,
        no_ignore: true,
        include_hidden: true,
        one_file_system: false,
        sort_by: SortCriterion::Size,
    }
}

fn meta(bytes: u64) -> Metadata {
    Metadata {
        len: bytes,
        blocks: Some(bytes.div_ceil(512)),
        device: Some(1),
    }
}

/// Walks a made-up tree of files below `/r`, contents after their directory,
/// pruning what is judged away.
fn walk(files: &[(&str, u64)], options: &ScanOptions, exclude: &Vec<String>) -> ScanReading {
    let mut entries: Vec<FlatEntry> = Vec::new();
    let mut seen: Vec<String> = Vec::new();
    let mut pruned: Vec<String> = Vec::new();
    let mut errors_count = 0;
    for (path, bytes) in files {
        let parts: Vec<&str> = path.split('/').collect();
        for depth in 1..=parts.len() {
            let relative = parts[..depth].join("/");
            if seen.contains(&relative) || pruned.iter().any(|p| relative.starts_with(p)) {
                continue;
            }
            let is_dir = depth < parts.len();
            let found = judge_entry(
                &WalkFacts {
                    depth,
                    name: parts[depth - 1].to_string(),
                    relative: relative.clone(),
                    is_dir,
                    meta: Some(meta(if is_dir { 0 } else { *bytes })),
                    unreadable: false,
                },
                options,
                exclude,
                Some(1),
            );
            errors_count += found.errors;
            if !found.keep {
                pruned.push(relative);
                continue;
            }
            let mut parent = "/r".to_string();
            if depth > 1 {
                parent = format!("/r/{}", parts[..depth - 1].join("/"));
            }
            entries.push(FlatEntry {
                parent: PathBuf::new(&parent),
                name: parts[depth - 1].to_string(),
                allocated: found.allocated,
                logical: found.logical,
                is_dir,
            });
            seen.push(relative);
        }
    }
    ScanReading {
        platform: Platform::Linux,
        canonical: PathBuf::new("/r"),
        is_dir: true,
        meta: meta(0),
        entries,
        errors_count,
        duration_ms: 5,
    }
}

fn scan_excluding(files: &[(&str, u64)], options: &ScanOptions, exclude: &[&str]) -> ScanResult {
    let exclude = exclude.iter().map(|s| s.to_string()).collect();
    let reading = walk(files, options, &exclude);
    assert!(can_assemble(&reading, options));
    scan_path(&PathBuf::new("/r"), options, &Ok(reading)).unwrap()
}

fn scan(files: &[(&str, u64)], options: &ScanOptions) -> ScanResult {
    scan_excluding(files, options, &[])
}

fn child<'a>(node: &'a DirectoryNode, name: &str) -> &'a DirectoryNode {
    node.children
        .iter()
        .find(|child| child.name == name)
        .unwrap_or_else(|| panic!("expected child {name:?} under {:?}", node.path))
}

fn names(node: &DirectoryNode) -> Vec<&str> {
    node.children.iter().map(|c| c.name.as_str()).collect()
}

#[test]
fn aggregates_sizes_and_counts_recursively() {
    let result = scan(
        &[("a/file1.bin", 100 * KIB), ("b/file2.bin", 200 * KIB)],
        &base_options(),
    );
    assert_eq!(result.summary.total_files, 2);
    assert_eq!(result.summary.total_dirs, 2);
    assert_eq!(result.root.size, 300 * KIB);
    assert_eq!(result.root.apparent_size, 300 * KIB);
    // Largest first by default.
    assert_eq!(names(&result.root), vec!["b", "a"]);
    assert_eq!(result.root.name, "r");
    assert_eq!(child(&result.root, "a").path, PathBuf::new("/r/a"));
    assert_eq!(result.summary.duration_ms, 5);
}

#[test]
fn totals_are_sums_over_all_entries() {
    let mut files: Vec<(String, u64)> = Vec::new();
    for i in 0..60_u64 {
        let deep = (0..i % 7).map(|level| format!("d{}/", (i + level) % 4)).collect::<String>();
        files.push((format!("{deep}f{i}"), i * i * 131));
    }
    let listed: Vec<(&str, u64)> = files.iter().map(|(p, b)| (p.as_str(), *b)).collect();
    let options = ScanOptions {
        max_depth: 1,
        top_n: Some(2),
        min_size: Some(4_000),
        ..base_options()
    };
    let reading = walk(&listed, &options, &vec![]);
    let count = |dirs: bool| reading.entries.iter().filter(|e| e.is_dir == dirs).count() as u64;
    let (kept_files, kept_dirs) = (count(false), count(true));
    let allocated: u64 = reading.entries.iter().filter(|e| !e.is_dir).map(|e| e.allocated).sum();
    let logical: u64 = reading.entries.iter().filter(|e| !e.is_dir).map(|e| e.logical).sum();
    assert_eq!(kept_files, 60);
    assert!(kept_dirs > 20);
    // The order of the walk makes no difference.
    let mut reading = reading;
    reading.entries.reverse();
    let result = scan_path(&PathBuf::new("/r"), &options, &Ok(reading)).unwrap();
    assert_eq!(result.summary.total_files, kept_files);
    assert_eq!(result.summary.total_dirs, kept_dirs);
    assert_eq!(result.summary.total_size, allocated);
    assert_eq!(result.summary.total_apparent_size, logical);
    assert!(result.root.children.len() <= 2);
    assert_eq!(result.clone(), result);
}

#[test]
fn max_depth_limits_display_but_totals_stay_true() {
    let options = ScanOptions {
        max_depth: 1,
        ..base_options()
    };
    let result = scan(&[("lvl1/lvl2/lvl3/file.bin", 4 * KIB)], &options);

    let lvl1 = child(&result.root, "lvl1");
    assert!(result.root.is_dir);
    assert_eq!(names(&result.root), vec!["lvl1"]);
    assert!(
        lvl1.children.is_empty(),
        "depth-1 view must hide deeper levels"
    );
    assert_eq!(result.summary.total_size, 4 * KIB);
    assert_eq!(result.summary.total_dirs, 3);
    assert_eq!(result.summary.total_files, 1);
    assert_eq!(result.root.size, 4 * KIB);
    assert_eq!(lvl1.dir_count, 2);
    assert_eq!(lvl1.file_count, 1);
}

#[test]
fn ignored_directories_are_pruned_unless_disabled() {
    let files = [
        ("node_modules/package/index.js", 4 * KIB),
        ("src/main.rs", 4 * KIB),
    ];
    let ignoring = ScanOptions {
        no_ignore: false,
        ..base_options()
    };
    let result = scan(&files, &ignoring);
    assert_eq!(names(&result.root), vec!["src"]);
    assert_eq!(result.root.size, 4 * KIB);

    let result = scan(&files, &base_options());
    assert_eq!(names(&result.root), vec!["node_modules", "src"]);
    assert_eq!(result.root.size, 8 * KIB);
}

#[test]
fn hidden_entries_are_filtered_per_option() {
    let files = [
        (".secret_dir/data.txt", 4 * KIB),
        ("public_dir/data.txt", 4 * KIB),
    ];
    let options = ScanOptions {
        include_hidden: false,
        ..base_options()
    };
    let result = scan(&files, &options);
    assert_eq!(names(&result.root), vec!["public_dir"]);
    assert_eq!(result.root.size, 4 * KIB);

    let result = scan(&files, &base_options());
    assert_eq!(names(&result.root), vec![".secret_dir", "public_dir"]);
    assert_eq!(result.root.size, 8 * KIB);
}

#[test]
fn min_size_filters_entries_but_keeps_true_totals() {
    let options = ScanOptions {
        min_size: Some(1_000_000),
        ..base_options()
    };
    let result = scan(
        &[
            ("small.bin", 40 * KIB),
            ("medium.bin", 500 * KIB),
            ("big.bin", 5 * MIB),
        ],
        &options,
    );
    assert_eq!(names(&result.root), vec!["big.bin"]);
    // Ancestors keep reporting true totals despite hidden children.
    let true_total = 40 * KIB + 500 * KIB + 5 * MIB;
    assert_eq!(result.root.size, true_total);
    assert_eq!(result.summary.total_size, true_total);
    assert_eq!(result.summary.total_files, 3);
}

#[test]
fn top_n_keeps_largest_children_after_sorting() {
    let owned: Vec<(String, u64)> = (0..10)
        .map(|i| (format!("f{i}.bin"), (i + 1) * 4 * KIB))
        .collect();
    let files: Vec<(&str, u64)> = owned.iter().map(|(n, s)| (n.as_str(), *s)).collect();
    let options = ScanOptions {
        top_n: Some(3),
        ..base_options()
    };
    let result = scan(&files, &options);
    assert_eq!(names(&result.root), vec!["f9.bin", "f8.bin", "f7.bin"]);
    // Totals are unaffected by display truncation.
    assert_eq!(result.root.file_count, 10);
    assert_eq!(result.root.size, 220 * KIB);
}

#[test]
fn symlink_loop_terminates_without_following() {
    // A link is an entry of its own, never a directory.
    let result = scan(&[("loop", 0)], &base_options());
    let loop_node = child(&result.root, "loop");
    assert!(
        !loop_node.is_dir,
        "symlinks must not be treated as directories"
    );
    assert_eq!(result.root.dir_count, 0);
    // A listing that is its own parent ends as well.
    let reading = ScanReading {
        platform: Platform::Linux,
        canonical: PathBuf::new("/"),
        is_dir: true,
        meta: meta(0),
        entries: vec![FlatEntry {
            parent: PathBuf::new("/"),
            name: "/".to_string(),
            allocated: 0,
            logical: 0,
            is_dir: true,
        }],
        errors_count: 0,
        duration_ms: 0,
    };
    let result = scan_path(&PathBuf::new("/"), &base_options(), &Ok(reading)).unwrap();
    assert_eq!(result.root.dir_count, 1);
    assert_eq!(result.root.name, "/");
}

#[test]
fn missing_root_reports_path_not_found() {
    let fail = |failure| {
        scan_path(
            &PathBuf::new("/definitely/not/a/real/path"),
            &base_options(),
            &Err(failure),
        )
        .expect_err("missing path must fail")
    };
    let io = |kind| IoError {
        kind,
        message: "m".to_string(),
    };
    assert!(matches!(
        fail(ScanFailure::Resolve(io(IoErrorKind::NotFound))),
        DiskPulseError::Scan(ScanError::PathNotFound(_))
    ));
    assert!(matches!(
        fail(ScanFailure::Resolve(io(IoErrorKind::PermissionDenied))),
        DiskPulseError::Scan(ScanError::PermissionDenied(_))
    ));
    assert!(matches!(
        fail(ScanFailure::Resolve(io(IoErrorKind::Other))),
        DiskPulseError::Io(_)
    ));
    assert!(matches!(
        fail(ScanFailure::Read(io(IoErrorKind::NotFound))),
        DiskPulseError::Io(_)
    ));
}

#[test]
fn assembly_does_not_depend_on_the_order_of_directories() {
    let mut reading = walk(
        &[("a/b/c", KIB), ("a/d", 2 * KIB), ("e", 4 * KIB)],
        &base_options(),
        &vec![],
    );
    let straight = scan_path(&PathBuf::new("/r"), &base_options(), &Ok(reading)).unwrap();
    reading = walk(
        &[("a/b/c", KIB), ("a/d", 2 * KIB), ("e", 4 * KIB)],
        &base_options(),
        &vec![],
    );
    reading.entries.reverse();
    let reversed = scan_path(&PathBuf::new("/r"), &base_options(), &Ok(reading)).unwrap();
    assert_eq!(straight.root, reversed.root);
    assert_eq!(straight.root.file_count, 3);
    assert_eq!(straight.root.dir_count, 2);
}

#[test]
fn file_roots_are_measured_by_themselves() {
    let reading = || ScanReading {
        platform: Platform::Linux,
        canonical: PathBuf::new("/r/file"),
        is_dir: false,
        meta: meta(1000),
        entries: vec![],
        errors_count: 2,
        duration_ms: 0,
    };
    let result = scan_path(&PathBuf::new("/r/file"), &base_options(), &Ok(reading())).unwrap();
    assert_eq!(result.root.size, 1024);
    assert_eq!(result.root.apparent_size, 1000);
    assert_eq!(result.summary.total_files, 1);
    assert_eq!(result.summary.errors_count, 2);
    let apparent = ScanOptions {
        apparent_size: true,
        ..base_options()
    };
    let result = scan_path(&PathBuf::new("/r/file"), &apparent, &Ok(reading())).unwrap();
    assert_eq!(result.root.size, 1000);
}

#[test]
fn oversized_readings_are_told_apart() {
    let mut reading = walk(&[("a", 512), ("b", 512)], &base_options(), &vec![]);
    reading.entries[0].allocated = u64::MAX;
    assert!(!can_assemble(&reading, &base_options()));
    let apparent = ScanOptions {
        apparent_size: true,
        ..base_options()
    };
    assert!(can_assemble(&reading, &apparent));
    reading.is_dir = false;
    assert!(!can_assemble(&reading, &apparent));
}

#[test]
fn globs_exclude_names_and_relative_paths() {
    let files = [
        ("app.log", KIB),
        ("coverage/x", KIB),
        ("src/deep/y.log", KIB),
        ("src/z", KIB),
    ];
    let result = scan_excluding(&files, &base_options(), &["*.log", "coverage"]);
    assert_eq!(result.summary.total_files, 1);
    let result = scan_excluding(&files, &base_options(), &["src/*/y.???"]);
    assert_eq!(result.summary.total_files, 3);
}

#[test]
fn globs_match_stars_and_question_marks() {
    assert!(matches_glob("*", ""));
    assert!(matches_glob("a*c", "abbbc"));
    assert!(matches_glob("*a*b*", "xxaybz"));
    assert!(matches_glob("?", "é"));
    assert!(!matches_glob("?", ""));
    assert!(!matches_glob("a*c", "abcd"));
    assert!(!matches_glob("", "a"));
    assert!(matches_glob("", ""));
}

#[test]
fn entries_are_judged_by_name_device_and_readability() {
    let facts = |depth, name: &str, is_dir, meta| WalkFacts {
        depth,
        name: name.to_string(),
        relative: name.to_string(),
        is_dir,
        meta,
        unreadable: false,
    };
    let strict = ScanOptions {
        no_ignore: false,
        include_hidden: false,
        one_file_system: true,
        ..base_options()
    };
    let judge = |f: &WalkFacts| judge_entry(f, &strict, &vec![], Some(1));
    // The scan root is exempt from the name rules.
    assert!(judge(&facts(0, ".cache", true, Some(meta(0)))).keep);
    assert!(judge(&facts(0, "node_modules", true, Some(meta(0)))).keep);
    assert!(!judge(&facts(1, ".cache", true, Some(meta(0)))).keep);
    // Only directories are ignored by name.
    assert!(!judge(&facts(1, "target", true, Some(meta(0)))).keep);
    assert!(judge(&facts(1, "target", false, Some(meta(0)))).keep);
    assert!(judge(&facts(1, "build", false, Some(meta(0)))).keep);
    let elsewhere = Metadata {
        device: Some(2),
        ..meta(0)
    };
    assert!(!judge(&facts(1, "mnt", true, Some(elsewhere))).keep);
    assert!(judge(&facts(1, "file", false, Some(elsewhere))).keep);
    assert_eq!(
        judge(&facts(1, "blind", true, None)),
        Judgement {
            keep: false,
            errors: 1,
            allocated: 0,
            logical: 0
        }
    );
    let mut unreadable = facts(1, "dir", true, Some(meta(0)));
    unreadable.unreadable = true;
    assert_eq!(judge(&unreadable).errors, 1);
    assert!(judge(&unreadable).keep);
    assert_eq!(
        judge(&facts(1, "f", false, Some(meta(700)))),
        Judgement {
            keep: true,
            errors: 0,
            allocated: 1024,
            logical: 700
        }
    );
    assert!(is_ignored_name("__pycache__") && !is_ignored_name("targets"));
}

#[test]
fn sort_criteria_parse_whatever_their_case() {
    assert_eq!(SortCriterion::parse("size"), Ok(SortCriterion::Size));
    assert_eq!(SortCriterion::parse("COUNT"), Ok(SortCriterion::Count));
    assert_eq!(SortCriterion::parse("Name"), Ok(SortCriterion::Name));
    assert_eq!(
        SortCriterion::parse("Weight"),
        Err(ParseError::InvalidSortField("weight".to_string()))
    );
}

#[test]
fn scan_options_follow_arguments() {
    let args = VizArgs {
        path: None,
        depth: 3,
        top: 5,
        min_size: Some("1K".to_string()),
        sort: "nonsense".to_string(),
        exclude: vec![],
        apparent_size: true,
        no_ignore: false,
        hidden: true,
        one_file_system: true,
    };
    assert_eq!(
        ScanOptions::from(&args),
        ScanOptions {
            max_depth: 3,
            min_size: Some(1024),
            top_n: Some(5),
            apparent_size: true,
            no_ignore: false,
            include_hidden: true,
            one_file_system: true,
            sort_by: SortCriterion::Size,
        }
    );
}
