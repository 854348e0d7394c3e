//! Planning and carrying out a cleanup, on readings of a file system.

use diskpulse::cleaner::{
    begin_tree_removal, can_plan, create_clean_plan, effective_cutoff, execute_clean_plan,
    get_registered_targets, plan_roots, removal_status, remove_item, removes_items,
    resolve_targets, safe_remove_dir_all_one_fs, tree_size, tree_step, CleanOptions, Environment,
    FsEntry, Inputs, ItemStat, JailContext, RemovalAction, RootProbe, TreeAction, TreeEvent,
    TreeState, TreeStep, WalkedEntry, WalkedStat,
};
use diskpulse::cli::CleanArgs;
use diskpulse::errors::{CleanError, DiskPulseError, IoError, SafetyError};
use diskpulse::models::{CleanItemStatus, CleanPlan, EntryKind};
use diskpulse::path::{PathBuf, Platform};
use diskpulse::util::{Duration, Metadata, Timestamp};

const NOW: i64 = 1_700_000_000;

fn env() -> Environment {
    Environment {
        platform: Platform::Linux,
        home: Some(PathBuf::new("/home/alice")),
        cache_dir: Some(PathBuf::new("/home/alice/.cache")),
        local_app_data: None,
        temp_dir: PathBuf::new("/tmp"),
    }
}

fn jail() -> JailContext {
    JailContext {
        platform: Platform::Linux,
        system_roots: vec![PathBuf::new("/"), PathBuf::new("/etc"), PathBuf::new("/var")],
        temp_prefixes: vec![PathBuf::new("/tmp"), PathBuf::new("/var/tmp")],
        home: Some(PathBuf::new("/home/alice")),
        user_dirs: vec![PathBuf::new("/home/alice/Documents")],
        current_dir: Some(PathBuf::new("/work")),
    }
}

fn meta(bytes: u64) -> Option<Metadata> {
    Some(Metadata {
        len: bytes,
        blocks: Some(bytes.div_ceil(512)),
        device: Some(1),
    })
}

fn at(seconds_ago: i64) -> Option<Timestamp> {
    Some(Timestamp {
        secs: NOW - seconds_ago,
        nanos: 0,
    })
}

fn file(path: &str, bytes: u64) -> FsEntry {
    FsEntry {
        path: PathBuf::new(path),
        kind: Some(EntryKind::File),
        meta: meta(bytes),
        modified: at(0),
        canonical: Some(PathBuf::new(path)),
        children: vec![],
    }
}

fn dir(path: &str, children: Vec<FsEntry>) -> FsEntry {
    FsEntry {
        path: PathBuf::new(path),
        kind: Some(EntryKind::Directory),
        meta: meta(0),
        modified: at(0),
        canonical: Some(PathBuf::new(path)),
        children,
    }
}

fn link(path: &str, target: Option<&str>) -> FsEntry {
    FsEntry {
        path: PathBuf::new(path),
        kind: Some(EntryKind::Symlink),
        meta: Some(Metadata {
            len: 20,
            blocks: Some(0),
            device: Some(1),
        }),
        modified: at(0),
        canonical: target.map(PathBuf::new),
        children: vec![],
    }
}

fn aged(mut entry: FsEntry, seconds: i64) -> FsEntry {
    entry.modified = at(seconds);
    entry
}

fn on_device(mut entry: FsEntry, device: u64) -> FsEntry {
    if let Some(meta) = &mut entry.meta {
        meta.device = Some(device);
    }
    entry
}

fn sandbox_cache() -> FsEntry {
    dir(
        "/tmp/s/cache",
        vec![
            dir(
                "/tmp/s/cache/pkg-a",
                vec![
                    file("/tmp/s/cache/pkg-a/lib.rlib", 4_096),
                    file("/tmp/s/cache/pkg-a/meta.json", 128),
                ],
            ),
            file("/tmp/s/cache/loose.bin", 4_096),
        ],
    )
}

fn probe(entry: FsEntry) -> RootProbe {
    RootProbe {
        exists: true,
        canonical: entry.canonical.clone(),
        entry: Some(entry),
    }
}

fn plan_of(options: &CleanOptions, probes: Vec<RootProbe>) -> Result<CleanPlan, DiskPulseError> {
    let env = env();
    let jail = jail();
    let inputs = Inputs {
        options,
        env: &env,
        jail: &jail,
        now: Timestamp {
            secs: NOW,
            nanos: 0,
        },
        probes: &probes,
    };
    assert!(can_plan(&inputs));
    create_clean_plan(&inputs)
}

fn custom(path: &str) -> CleanOptions {
    CleanOptions {
        custom_path: Some(PathBuf::new(path)),
        ..CleanOptions::default()
    }
}

fn paths(plan: &CleanPlan) -> Vec<&str> {
    plan.items.iter().map(|item| item.path.text.as_str()).collect()
}

// ---------------------------------------------------------------------------
// Windows and targets
// ---------------------------------------------------------------------------

#[test]
fn effective_cutoff_maps_durations_to_instants() {
    let now = Timestamp {
        secs: NOW,
        nanos: 7,
    };
    assert!(effective_cutoff(None, now).is_none());

    let cutoff = effective_cutoff(Some(Duration { seconds: 3600 }), now).unwrap();
    assert_eq!(
        cutoff,
        Timestamp {
            secs: NOW - 3600,
            nanos: 7
        },
        "cutoff should sit one hour in the past"
    );

    // A negative/zero duration degrades safely to "delete nothing fresh".
    assert_eq!(effective_cutoff(Some(Duration { seconds: 0 }), now), Some(now));
    assert_eq!(effective_cutoff(Some(Duration { seconds: -5 }), now), Some(now));
    assert!(effective_cutoff(
        Some(Duration { seconds: i64::MAX }),
        Timestamp {
            secs: -10,
            nanos: 0
        }
    )
    .is_none());
}

#[test]
fn resolve_targets_expands_defaults_all_and_unknown() {
    let env = env();
    let defaults = resolve_targets(&vec![], &env).unwrap();
    assert!(!defaults.is_empty());
    assert!(defaults.iter().all(|t| t.enabled_by_default));
    assert!(defaults.iter().any(|t| t.id == "system-temp"));
    assert_eq!(defaults.len(), 9);

    let all = resolve_targets(&vec!["all".to_string()], &env).unwrap();
    assert!(all.len() >= defaults.len());
    assert!(all.iter().any(|t| !t.enabled_by_default));
    assert_eq!(all.len(), 12);

    let specific = resolve_targets(
        &vec!["cargo-cache".to_string(), "cargo-cache".to_string()],
        &env,
    )
    .unwrap();
    assert_eq!(specific.len(), 1);
    assert_eq!(specific[0].id, "cargo-cache");

    let err = resolve_targets(&vec!["bogus".to_string()], &env).unwrap_err();
    assert!(
        err.to_string().contains("bogus"),
        "unknown target must be reported"
    );
    // Order of the request, not of the registry.
    let two = resolve_targets(
        &vec!["xcode".to_string(), "npm-cache".to_string()],
        &env,
    )
    .unwrap();
    assert_eq!(two[0].id, "xcode");
    assert_eq!(two[1].id, "npm-cache");
}

#[test]
fn registry_resolves_paths_per_platform() {
    let find = |env: &Environment, id: &str| -> Vec<String> {
        get_registered_targets(env)
            .into_iter()
            .find(|t| t.id == id)
            .unwrap()
            .paths
            .into_iter()
            .map(|p| p.text)
            .collect()
    };
    let linux = env();
    assert_eq!(find(&linux, "system-temp"), vec!["/tmp", "/var/tmp"]);
    assert_eq!(find(&linux, "user-cache"), vec!["/home/alice/.cache"]);
    assert_eq!(
        find(&linux, "cargo-cache"),
        vec![
            "/home/alice/.cargo/registry/cache",
            "/home/alice/.cargo/git/db"
        ]
    );
    assert_eq!(find(&linux, "yarn-cache"), vec!["/home/alice/.cache/yarn"]);
    assert!(find(&linux, "xcode").is_empty());

    let mac = Environment {
        platform: Platform::Macos,
        home: Some(PathBuf::new("/Users/a")),
        cache_dir: Some(PathBuf::new("/Users/a/Library/Caches")),
        ..env()
    };
    assert_eq!(
        find(&mac, "xcode"),
        vec!["/Users/a/Library/Developer/Xcode/DerivedData"]
    );
    assert_eq!(
        find(&mac, "browser-cache")[2],
        "/Users/a/Library/Caches/BraveSoftware/Brave-Browser"
    );

    let windows = Environment {
        platform: Platform::Windows,
        home: Some(PathBuf::new("C:\\Users\\a")),
        cache_dir: None,
        local_app_data: Some(PathBuf::new("C:\\Users\\a\\AppData\\Local")),
        temp_dir: PathBuf::new("C:\\Temp"),
    };
    assert_eq!(
        find(&windows, "system-temp"),
        vec!["C:\\Temp", "C:\\Users\\a\\AppData\\Local\\Temp"]
    );
    assert_eq!(
        find(&windows, "npm-cache"),
        vec!["C:\\Users\\a\\AppData\\Local\\npm-cache"]
    );
    assert_eq!(
        find(&windows, "pip-cache"),
        vec!["C:\\Users\\a\\pip\\Cache"]
    );
    let homeless = Environment {
        home: None,
        cache_dir: None,
        ..env()
    };
    assert!(find(&homeless, "cargo-cache").is_empty());
    let temp = &get_registered_targets(&linux)[0];
    assert_eq!(temp.default_older_than, Some(Duration { seconds: 86_400 }));
}

// ---------------------------------------------------------------------------
// Dry-run behaviour
// ---------------------------------------------------------------------------

#[test]
fn dry_run_plan_does_not_mutate_filesystem() {
    let plan = plan_of(&custom("/tmp/s/cache"), vec![probe(sandbox_cache())]).expect("dry-run plan");
    assert!(plan.is_dry_run);
    assert_eq!(plan.total_items, 2, "pkg-a dir + one loose file");
    let planned_dir = plan
        .items
        .iter()
        .find(|item| item.path == PathBuf::new("/tmp/s/cache/pkg-a"))
        .expect("pkg-a planned as one unit");
    assert!(planned_dir.is_dir);
    assert_eq!(planned_dir.size, 4_096 + 512);

    assert!(!removes_items(&plan));
    let report = execute_clean_plan(&plan, &vec![], 0);
    assert_eq!(report.items_freed, 0);
    assert_eq!(report.bytes_freed, 0);
    assert_eq!(report.results.len(), 2);
    assert!(report
        .results
        .iter()
        .all(|item| matches!(item.status, CleanItemStatus::SkippedDryRun)));
    assert!(report.dry_run);
}

#[test]
fn dry_run_report_lists_items_but_marks_them_skipped() {
    let cache = dir("/tmp/w/cache", vec![file("/tmp/w/cache/blob.bin", 8_192)]);
    let plan = plan_of(&custom("/tmp/w/cache"), vec![probe(cache)]).expect("plan");
    assert!(plan.is_dry_run);
    assert!(!plan.items.is_empty());
    assert!(plan.total_bytes > 0);
    let report = execute_clean_plan(&plan, &vec![], 3);
    assert_eq!(report.bytes_freed, 0);
    assert_eq!(report.results[0].status, CleanItemStatus::SkippedDryRun);
}

// ---------------------------------------------------------------------------
// Filters
// ---------------------------------------------------------------------------

#[test]
fn age_filter_excludes_fresh_entries() {
    let mut root = sandbox_cache();
    root.children
        .push(aged(file("/tmp/s/cache/stale.bin", 256), 3 * 3600));
    let options = CleanOptions {
        older_than: Some(Duration { seconds: 3600 }),
        ..custom("/tmp/s/cache")
    };
    let plan = plan_of(&options, vec![probe(root)]).expect("plan");
    let planned = paths(&plan);
    assert!(planned.contains(&"/tmp/s/cache/stale.bin"), "stale entry selected");
    assert!(
        !planned.contains(&"/tmp/s/cache/loose.bin"),
        "fresh entry excluded"
    );
    assert_eq!(planned.len(), 1);
}

#[test]
fn size_filter_excludes_small_entries() {
    let mut root = sandbox_cache();
    root.children.push(file("/tmp/s/cache/big.cache", 8_192));
    let options = CleanOptions {
        min_size: Some(6_000),
        ..custom("/tmp/s/cache")
    };
    let plan = plan_of(&options, vec![probe(root)]).expect("plan");
    let planned = paths(&plan);
    assert!(planned.contains(&"/tmp/s/cache/big.cache"), "large entry selected");
    assert!(
        !planned.contains(&"/tmp/s/cache/loose.bin"),
        "entry below --min-size excluded"
    );
}

#[test]
fn age_windows_never_trust_directory_times() {
    // An ancient-looking directory hides brand-new content.
    let root = dir(
        "/tmp/c",
        vec![aged(
            dir(
                "/tmp/c/pkg",
                vec![
                    file("/tmp/c/pkg/new", 512),
                    aged(file("/tmp/c/pkg/old", 512), 7200),
                ],
            ),
            999_999,
        )],
    );
    let options = CleanOptions {
        older_than: Some(Duration { seconds: 3600 }),
        ..custom("/tmp/c")
    };
    let plan = plan_of(&options, vec![probe(root)]).expect("plan");
    assert_eq!(paths(&plan), vec!["/tmp/c/pkg/old"]);
    // Unknown times never pass a window.
    let mut unknown = file("/tmp/c/x", 512);
    unknown.modified = None;
    let plan = plan_of(&options, vec![probe(dir("/tmp/c", vec![unknown]))]).expect("plan");
    assert!(plan.items.is_empty());
}

#[test]
fn unreadable_entries_are_skipped() {
    let mut blind = file("/tmp/c/blind", 512);
    blind.meta = None;
    let root = dir("/tmp/c", vec![blind, file("/tmp/c/seen", 512)]);
    let plan = plan_of(&custom("/tmp/c"), vec![probe(root)]).expect("plan");
    assert_eq!(paths(&plan), vec!["/tmp/c/seen"]);
    // Nothing at the root at all.
    let plan = plan_of(
        &custom("/tmp/gone"),
        vec![RootProbe {
            exists: false,
            canonical: None,
            entry: None,
        }],
    )
    .expect("plan");
    assert_eq!(plan.total_items, 0);
}

#[test]
fn one_file_system_leaves_other_devices_out() {
    let root = || {
        dir(
            "/tmp/c",
            vec![
                dir(
                    "/tmp/c/pkg",
                    vec![
                        file("/tmp/c/pkg/a", 512),
                        on_device(file("/tmp/c/pkg/b", 512), 2),
                        on_device(dir("/tmp/c/pkg/m", vec![file("/tmp/c/pkg/m/x", 512)]), 2),
                    ],
                ),
                on_device(dir("/tmp/c/mnt", vec![file("/tmp/c/mnt/y", 512)]), 2),
            ],
        )
    };
    let free = plan_of(&custom("/tmp/c"), vec![probe(root())]).expect("plan");
    assert_eq!(paths(&free), vec!["/tmp/c/pkg", "/tmp/c/mnt"]);
    assert_eq!(free.items[0].size, 3 * 512);
    let bound = CleanOptions {
        one_file_system: true,
        ..custom("/tmp/c")
    };
    let plan = plan_of(&bound, vec![probe(root())]).expect("plan");
    assert_eq!(paths(&plan), vec!["/tmp/c/pkg"]);
    assert_eq!(plan.items[0].size, 512);
    assert!(plan.one_file_system);
}

#[test]
fn tree_sizes_count_regular_files_only() {
    let tree = dir(
        "/t",
        vec![
            file("/t/a", 100),
            link("/t/l", Some("/t")),
            dir("/t/d", vec![file("/t/d/b", 513)]),
        ],
    );
    assert_eq!(tree_size(&tree, false, None), Some(512 + 1024));
    let mut huge = file("/t/h", 0);
    huge.meta = Some(Metadata {
        len: 0,
        blocks: Some(u64::MAX),
        device: None,
    });
    assert_eq!(tree_size(&dir("/t", vec![huge]), false, None), None);
}

#[test]
fn registered_roots_are_skipped_when_missing_or_refused() {
    let options = CleanOptions {
        targets: vec!["cargo-cache".to_string()],
        apply: true,
        ..CleanOptions::default()
    };
    let roots = plan_roots(&options, &env()).unwrap();
    assert_eq!(roots.len(), 2);
    assert_eq!(roots[0].target_id, "cargo-cache");
    let cache = "/home/alice/.cargo/registry/cache";
    let there = RootProbe {
        exists: true,
        canonical: Some(PathBuf::new(cache)),
        entry: Some(dir(cache, vec![file("/home/alice/.cargo/registry/cache/x", 512)])),
    };
    // The second root is a link into personal data.
    let refused = RootProbe {
        exists: true,
        canonical: Some(PathBuf::new("/home/alice/Documents")),
        entry: Some(dir(
            "/home/alice/.cargo/git/db",
            vec![file("/home/alice/.cargo/git/db/y", 512)],
        )),
    };
    let plan = plan_of(&options, vec![there, refused]).expect("plan");
    assert_eq!(paths(&plan), vec!["/home/alice/.cargo/registry/cache/x"]);
    assert!(!plan.is_dry_run);
    assert_eq!(plan.items[0].target_name, "Cargo Cache");
    assert_eq!(plan.targets.len(), 1);
}

#[test]
fn system_temp_content_must_be_a_day_old() {
    let options = CleanOptions {
        targets: vec!["system-temp".to_string()],
        ..CleanOptions::default()
    };
    let roots = || {
        vec![
            probe(dir(
                "/tmp",
                vec![
                    aged(file("/tmp/old", 512), 86_400),
                    aged(file("/tmp/young", 512), 86_399),
                ],
            )),
            probe(dir("/var/tmp", vec![])),
        ]
    };
    let plan = plan_of(&options, roots()).expect("plan");
    assert_eq!(paths(&plan), vec!["/tmp/old"]);
    // An explicit window replaces the floor.
    let options = CleanOptions {
        older_than: Some(Duration { seconds: 10 }),
        ..options
    };
    let plan = plan_of(&options, roots()).expect("plan");
    assert_eq!(plan.total_items, 2);
}

#[test]
fn protected_custom_paths_are_errors() {
    let plan = plan_of(
        &custom("/home/alice/Documents"),
        vec![probe(dir("/home/alice/Documents", vec![]))],
    );
    assert!(matches!(
        plan,
        Err(DiskPulseError::Safety(SafetyError::ProtectedUserData(_)))
    ));
    let error = plan.unwrap_err();
    assert_eq!(error.exit_code(), 1);
    assert!(error.to_string().contains("personal data"));
    let unknown = CleanOptions {
        targets: vec!["not-a-target".to_string()],
        ..CleanOptions::default()
    };
    assert!(matches!(
        plan_of(&unknown, vec![]),
        Err(DiskPulseError::Clean(CleanError::TargetNotFound(_)))
    ));
}

#[test]
fn plans_need_one_probe_per_root_and_sizes_in_range() {
    let options = custom("/tmp/c");
    let env = env();
    let jail = jail();
    let now = Timestamp {
        secs: NOW,
        nanos: 0,
    };
    let none = vec![];
    assert!(!can_plan(&Inputs {
        options: &options,
        env: &env,
        jail: &jail,
        now,
        probes: &none,
    }));
    let mut huge = file("/tmp/c/a", 0);
    huge.meta = Some(Metadata {
        len: u64::MAX,
        blocks: None,
        device: None,
    });
    let probes = vec![probe(dir("/tmp/c", vec![huge, file("/tmp/c/b", 512)]))];
    assert!(!can_plan(&Inputs {
        options: &options,
        env: &env,
        jail: &jail,
        now,
        probes: &probes,
    }));
}

// ---------------------------------------------------------------------------
// Links
// ---------------------------------------------------------------------------

#[test]
fn directory_symlink_loop_terminates_and_plans_link_only() {
    let root = dir(
        "/tmp/w/cache",
        vec![
            file("/tmp/w/cache/payload.bin", 4_096),
            link("/tmp/w/cache/loop", Some("/tmp/w/cache")),
        ],
    );
    let plan = plan_of(&custom("/tmp/w/cache"), vec![probe(root)]).expect("plan must terminate");
    let item = plan
        .items
        .iter()
        .find(|i| i.path == PathBuf::new("/tmp/w/cache/loop"))
        .expect("the link itself must appear exactly once");
    assert!(!item.is_dir, "link must not be classified as a dir");
    assert_eq!(plan.total_items, 2, "payload + link only: {:?}", paths(&plan));
}

#[test]
fn external_target_of_dir_symlink_is_never_descended_or_deleted() {
    let root = dir(
        "/tmp/w/cache",
        vec![link("/tmp/w/cache/ext", Some("/tmp/w/outside"))],
    );
    let plan = plan_of(&custom("/tmp/w/cache"), vec![probe(root)]).expect("plan");
    let ext_item = plan
        .items
        .iter()
        .find(|i| i.path == PathBuf::new("/tmp/w/cache/ext"))
        .expect("dir symlink planned as a single unit");
    assert!(!ext_item.is_dir);
    assert!(
        ext_item.size < 4096,
        "size came from the target subtree: {}",
        ext_item.size
    );
}

#[test]
fn file_symlink_is_sized_as_a_link_not_its_target() {
    let root = dir(
        "/tmp/w/cache",
        vec![link("/tmp/w/cache/big.link", Some("/tmp/w/outside/big.dat"))],
    );
    let plan = plan_of(&custom("/tmp/w/cache"), vec![probe(root)]).expect("plan");
    assert_eq!(plan.items.len(), 1);
    assert_ne!(plan.items[0].size, 65_536, "target bytes leaked into the plan");
}

#[test]
fn custom_path_pointing_at_a_symlink_unlinks_only_the_link() {
    let options = CleanOptions {
        apply: true,
        yes: true,
        ..custom("/tmp/w/cache/data.link")
    };
    let plan = plan_of(
        &options,
        vec![probe(link(
            "/tmp/w/cache/data.link",
            Some("/tmp/w/outside/data.bin"),
        ))],
    )
    .expect("plan");
    assert_eq!(plan.total_items, 1);
    assert!(!plan.items[0].is_dir);
    let action = remove_item(&jail(), &plan.items[0].path, false, false, false, &stat_link(None));
    assert_eq!(action, Ok(RemovalAction::RemoveFile));
}

#[test]
fn age_descent_into_fresh_dirs_skips_symlinked_subtrees() {
    let root = dir(
        "/tmp/w/cache",
        vec![dir(
            "/tmp/w/cache/fresh_pkg",
            vec![
                aged(file("/tmp/w/cache/fresh_pkg/stale.bin", 2_048), 4 * 3600),
                link("/tmp/w/cache/fresh_pkg/shortcut", Some("/tmp/w/outside_stash")),
            ],
        )],
    );
    let options = CleanOptions {
        older_than: Some(Duration { seconds: 3600 }),
        apply: true,
        yes: true,
        ..custom("/tmp/w/cache")
    };
    let plan = plan_of(&options, vec![probe(root)]).expect("plan");
    let planned = paths(&plan);
    assert!(
        planned.contains(&"/tmp/w/cache/fresh_pkg/stale.bin"),
        "stale real file must be reached through descent: {planned:?}"
    );
    assert!(
        !planned.iter().any(|p| p.contains("outside_stash")),
        "descent must never cross a symlink boundary: {planned:?}"
    );
}

#[test]
fn links_into_protected_places_are_not_planned() {
    let root = dir(
        "/tmp/w/cache",
        vec![link("/tmp/w/cache/evil", Some("/home/alice/Documents"))],
    );
    let plan = plan_of(&custom("/tmp/w/cache"), vec![probe(root)]).expect("plan");
    assert!(plan.items.is_empty());
}

// ---------------------------------------------------------------------------
// Removal
// ---------------------------------------------------------------------------

fn stat(kind: EntryKind, canonical: Option<&str>) -> Result<ItemStat, IoError> {
    Ok(ItemStat {
        kind,
        directory_link: false,
        canonical: canonical.map(PathBuf::new),
    })
}

fn stat_link(canonical: Option<&str>) -> Result<ItemStat, IoError> {
    stat(EntryKind::Symlink, canonical)
}

#[test]
fn trash_mode_never_hands_a_symlink_to_the_trash_api() {
    let path = PathBuf::new("/tmp/w/link_to_payload");
    let found = stat_link(Some("/tmp/w/payload.txt"));
    let action = remove_item(&jail(), &path, false, true, false, &found).expect("remove link");
    assert_eq!(action, RemovalAction::RemoveFile, "not trash");
    let status = removal_status(action, &path, &Ok(()));
    assert_eq!(status, Ok(CleanItemStatus::Deleted), "not MovedToTrash");
}

#[test]
fn remove_item_refuses_real_paths_behind_symlinked_parents() {
    // Positive control: a plain file inside the cleanable temp tree.
    let plain = PathBuf::new("/tmp/w/plain.bin");
    assert_eq!(
        remove_item(
            &jail(),
            &plain,
            false,
            false,
            false,
            &stat(EntryKind::File, Some("/tmp/w/plain.bin"))
        ),
        Ok(RemovalAction::RemoveFile)
    );
    // The lexical spelling looks tame; only the canonical view reveals the
    // protected location.
    let via_link = PathBuf::new("/tmp/w/to_root/etc/hosts");
    let result = remove_item(
        &jail(),
        &via_link,
        false,
        false,
        false,
        &stat(EntryKind::File, Some("/etc/hosts")),
    );
    assert!(
        result.is_err(),
        "deletion through symlinked parent must be refused"
    );
}

#[test]
fn symlink_retargeted_between_plan_and_execute_is_rejected() {
    // Same name, now aimed at the home root: the link itself is judged.
    let link = PathBuf::new("/tmp/w/cache/link");
    let action = remove_item(&jail(), &link, false, false, false, &stat_link(Some("/home/alice")));
    assert_eq!(
        action,
        Ok(RemovalAction::RemoveFile),
        "quarantine must unlink the link lexically"
    );
}

#[test]
fn real_file_whose_parent_swapped_to_protected_root_is_blocked() {
    let item = PathBuf::new("/tmp/w/cache/hosts");
    let reason = remove_item(
        &jail(),
        &item,
        false,
        false,
        false,
        &stat(EntryKind::File, Some("/etc/hosts")),
    )
    .unwrap_err();
    assert_eq!(
        reason,
        "blocked by safety jail: refusing to operate on protected system path \"/etc/hosts\""
    );
}

#[test]
fn removal_actions_follow_what_is_there() {
    let jail = jail();
    let path = PathBuf::new("/tmp/x");
    let at = Some("/tmp/x");
    let act = |kind, is_dir, trash, one| {
        remove_item(&jail, &path, is_dir, trash, one, &stat(kind, at)).unwrap()
    };
    assert_eq!(act(EntryKind::File, false, false, false), RemovalAction::RemoveFile);
    assert_eq!(act(EntryKind::File, false, true, true), RemovalAction::Trash);
    assert_eq!(act(EntryKind::Directory, true, false, false), RemovalAction::RemoveTree);
    assert_eq!(
        act(EntryKind::Directory, true, false, true),
        RemovalAction::RemoveTreeOneDevice
    );
    // Planned as a file, a directory by now: only if it is empty.
    assert_eq!(act(EntryKind::Directory, false, false, true), RemovalAction::RemoveDir);
    // Planned as a directory, a file by now.
    assert_eq!(act(EntryKind::Other, true, false, true), RemovalAction::RemoveFile);

    let windows = JailContext {
        platform: Platform::Windows,
        ..JailContext {
            platform: Platform::Windows,
            system_roots: vec![],
            temp_prefixes: vec![],
            home: None,
            user_dirs: vec![],
            current_dir: None,
        }
    };
    let junction = Ok(ItemStat {
        kind: EntryKind::Symlink,
        directory_link: true,
        canonical: None,
    });
    assert_eq!(
        remove_item(&windows, &PathBuf::new("C:\\c\\j"), false, true, false, &junction),
        Ok(RemovalAction::RemoveDir)
    );

    let gone = remove_item(&jail, &path, false, false, false, &Err(IoError::other("no such file")));
    assert_eq!(gone, Err("failed to delete /tmp/x: no such file".to_string()));
}

#[test]
fn removal_outcomes_are_worded() {
    let path = PathBuf::new("/tmp/x");
    let failed = Err(IoError::other("busy"));
    assert_eq!(
        removal_status(RemovalAction::Trash, &path, &Ok(())),
        Ok(CleanItemStatus::MovedToTrash)
    );
    assert_eq!(
        removal_status(RemovalAction::Trash, &path, &failed),
        Err("failed to trash /tmp/x: busy".to_string())
    );
    assert_eq!(
        removal_status(RemovalAction::RemoveTree, &path, &failed),
        Err("failed to delete /tmp/x: busy".to_string())
    );
    assert_eq!(
        removal_status(RemovalAction::RemoveTreeOneDevice, &path, &failed),
        Err("busy".to_string())
    );
}

#[test]
fn tree_removal_stays_on_its_device() {
    let p = Platform::Linux;
    let root = PathBuf::new("/tmp/t");
    let on = |device| Metadata {
        len: 0,
        blocks: None,
        device,
    };
    assert_eq!(begin_tree_removal(&root, &Ok(on(Some(1))), None), Ok(Some(1)));
    assert_eq!(
        begin_tree_removal(&root, &Ok(on(Some(1))), Some(2)),
        Err("refusing to cross mount point at /tmp/t".to_string())
    );
    assert_eq!(
        begin_tree_removal(&root, &Err(IoError::other("gone")), None),
        Err("failed to delete /tmp/t: gone".to_string())
    );
    let entry = |path: &str, is_dir, device| WalkedEntry::Found {
        path: PathBuf::new(path),
        stat: Ok(WalkedStat {
            is_dir,
            meta: on(device),
        }),
    };
    let step = |e: &WalkedEntry| tree_step(p, &root, Some(1), e);
    assert_eq!(step(&entry("/tmp/t", true, Some(1))), Ok(TreeStep::Leave));
    assert_eq!(step(&entry("/tmp/t/d", true, Some(1))), Ok(TreeStep::RemoveDir));
    assert_eq!(step(&entry("/tmp/t/f", false, None)), Ok(TreeStep::RemoveFile));
    assert_eq!(
        step(&entry("/tmp/t/m", true, Some(9))),
        Err("refusing to cross mount point at /tmp/t/m".to_string())
    );
    assert_eq!(
        step(&WalkedEntry::Failed("loop".to_string())),
        Err("traversal failed under /tmp/t: loop".to_string())
    );
    assert_eq!(
        step(&WalkedEntry::Found {
            path: PathBuf::new("/tmp/t/g"),
            stat: Err(IoError::other("denied")),
        }),
        Err("failed to delete /tmp/t/g: denied".to_string())
    );
}

/// Drives the removal of `/tmp/t` through entries given as path, whether it is
/// a directory, and device; `failing` cannot be removed. Gives what was
/// removed, in order, and how it ended.
fn drive(entries: &[(&str, bool, u64)], failing: &str) -> (Vec<String>, Result<(), String>) {
    let root = PathBuf::new("/tmp/t");
    let on = |device: u64| Metadata {
        len: 0,
        blocks: None,
        device: Some(device),
    };
    let mut walk = entries.iter();
    let mut removed = vec![];
    let mut state = TreeState::Start;
    let mut event = TreeEvent::Begun(Ok(on(1)));
    loop {
        let (next, action) =
            safe_remove_dir_all_one_fs(Platform::Linux, &root, None, state, event);
        state = next;
        event = match action {
            TreeAction::Walk => match walk.next() {
                Some((path, is_dir, device)) => TreeEvent::Walked(WalkedEntry::Found {
                    path: PathBuf::new(path),
                    stat: Ok(WalkedStat {
                        is_dir: *is_dir,
                        meta: on(*device),
                    }),
                }),
                None => TreeEvent::WalkEnded,
            },
            TreeAction::RemoveDir(path) | TreeAction::RemoveFile(path) => {
                if path.text == failing {
                    TreeEvent::Tried(Err(IoError::other("busy")))
                } else {
                    removed.push(path.text);
                    TreeEvent::Tried(Ok(()))
                }
            }
            TreeAction::Stop => break,
        };
    }
    match state {
        TreeState::Finished(outcome) => (removed, outcome),
        other => panic!("{other:?}"),
    }
}

#[test]
fn trees_vanish_bottom_up_and_stop_at_boundaries() {
    let whole = [
        ("/tmp/t/d/f", false, 1),
        ("/tmp/t/d", true, 1),
        ("/tmp/t/g", false, 1),
        ("/tmp/t", true, 1),
    ];
    let (removed, outcome) = drive(&whole, "");
    assert_eq!(removed, ["/tmp/t/d/f", "/tmp/t/d", "/tmp/t/g", "/tmp/t"]);
    assert_eq!(outcome, Ok(()));

    let mounted = [
        ("/tmp/t/d/f", false, 1),
        ("/tmp/t/d/m", true, 9),
        ("/tmp/t/d", true, 1),
        ("/tmp/t", true, 1),
    ];
    let (removed, outcome) = drive(&mounted, "");
    assert_eq!(removed, ["/tmp/t/d/f"]);
    assert_eq!(
        outcome,
        Err("refusing to cross mount point at /tmp/t/d/m".to_string())
    );

    let (removed, outcome) = drive(&whole, "/tmp/t/d");
    assert_eq!(removed, ["/tmp/t/d/f"]);
    assert_eq!(outcome, Err("failed to delete /tmp/t/d: busy".to_string()));
    let (removed, outcome) = drive(&whole, "/tmp/t");
    assert_eq!(removed.len(), 3);
    assert_eq!(outcome, Err("failed to delete /tmp/t: busy".to_string()));
}

#[test]
fn execute_plan_deletes_items_when_apply_is_set() {
    let options = CleanOptions {
        apply: true,
        yes: true,
        ..custom("/tmp/s/cache")
    };
    let plan = plan_of(&options, vec![probe(sandbox_cache())]).expect("apply-mode plan");
    let expected_bytes = plan.total_bytes;
    assert_eq!(plan.total_items, 2);
    assert!(removes_items(&plan));

    let report = execute_clean_plan(
        &plan,
        &vec![Ok(CleanItemStatus::Deleted), Ok(CleanItemStatus::Deleted)],
        12,
    );
    assert!(!report.dry_run);
    assert_eq!(report.items_freed, 2);
    assert_eq!(report.bytes_freed, expected_bytes);
    assert_eq!(report.errors_count, 0);
    assert_eq!(report.duration_ms, 12);
    assert!(report
        .results
        .iter()
        .all(|item| matches!(item.status, CleanItemStatus::Deleted)));
    assert_eq!(report.plan, plan);
}

#[test]
fn failures_are_recorded_per_item() {
    let options = CleanOptions {
        apply: true,
        ..custom("/tmp/s/cache")
    };
    let plan = plan_of(&options, vec![probe(sandbox_cache())]).expect("plan");
    let report = execute_clean_plan(
        &plan,
        &vec![Err("busy".to_string()), Ok(CleanItemStatus::MovedToTrash)],
        0,
    );
    assert_eq!(report.errors_count, 1);
    assert_eq!(report.items_freed, 1);
    assert_eq!(report.bytes_freed, 4_096);
    assert_eq!(
        report.results[0].status,
        CleanItemStatus::Failed("busy".to_string())
    );
    assert_eq!(report.results[1].status, CleanItemStatus::MovedToTrash);
}

#[test]
fn options_follow_arguments() {
    let args = CleanArgs {
        targets: vec!["npm-cache".to_string()],
        apply: true,
        yes: true,
        trash: true,
        older_than: Some("2d".to_string()),
        min_size: Some("10M".to_string()),
        path: None,
        one_file_system: true,
    };
    let options = CleanOptions::from(&args);
    assert_eq!(options.targets, vec!["npm-cache".to_string()]);
    assert!(options.apply && options.yes && options.use_trash && options.one_file_system);
    assert_eq!(options.older_than, Some(Duration { seconds: 172_800 }));
    assert_eq!(options.min_size, Some(10 * 1024 * 1024));
    assert!(options.custom_path.is_none());
}
