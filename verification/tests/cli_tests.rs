//! What a run does with its arguments, and what it shows.

use diskpulse::cleaner::{
    can_plan, create_clean_plan, execute_clean_plan, removes_items, validate_path_safety,
    CleanOptions, Environment, FsEntry, Inputs, JailContext, RootProbe,
};
use diskpulse::cli::{CleanArgs, Cli, Commands, LevelFilter, TargetsArgs, VizArgs};
use diskpulse::errors::{
    exit_code_for, CleanError, DiskPulseError, IoError, ParseError, SafetyError, ScanError,
};
use diskpulse::flow::{
    after_planning, confirmed, report_output, run_outcome, shows_progress, visible_targets,
    viz_target, Next, Output, CANCELLED,
};
use diskpulse::models::{CleanItemStatus, CleanPlan, CleanReport, EntryKind};
use diskpulse::path::{PathBuf, Platform};
use diskpulse::planning::resolve_targets;
use diskpulse::ui::{
    apply_warning, colors_wanted, confirmation_prompt, dim, format_error_chain, heading,
    item_count_label, remediation_hint, render_clean_plan_table, render_clean_report_table,
    render_targets, scan_banner, success, warning, Screen, Tone,
};
use diskpulse::util::{Metadata, Timestamp};

fn viz() -> VizArgs {
    VizArgs {
        path: None,
        depth: 2,
        top: 10,
        min_size: None,
        sort: "size".to_owned(),
        exclude: vec![],
        apparent_size: false,
        no_ignore: false,
        hidden: false,
        one_file_system: false,
    }
}

fn clean() -> CleanArgs {
    CleanArgs {
        targets: vec![],
        apply: false,
        yes: false,
        trash: false,
        older_than: None,
        min_size: None,
        path: None,
        one_file_system: false,
    }
}

fn env() -> Environment {
    Environment {
        platform: Platform::Linux,
        home: Some(PathBuf::new("/home/alice")),
        cache_dir: Some(PathBuf::new("/home/alice/.cache")),
        local_app_data: None,
        temp_dir: PathBuf::new("/tmp"),
    }
}

fn jail() -> JailContext {
    JailContext {
        platform: Platform::Linux,
        system_roots: vec![PathBuf::new("/"), PathBuf::new("/etc"), PathBuf::new("/var")],
        temp_prefixes: vec![PathBuf::new("/tmp"), PathBuf::new("/var/tmp")],
        home: Some(PathBuf::new("/home/alice")),
        user_dirs: vec![PathBuf::new("/home/alice/Documents")],
        current_dir: Some(PathBuf::new("/work")),
    }
}

fn entry(path: &str, kind: EntryKind, bytes: u64, children: Vec<FsEntry>) -> FsEntry {
    FsEntry {
        path: PathBuf::new(path),
        kind: Some(kind),
        meta: Some(Metadata {
            len: bytes,
            blocks: Some(bytes / 512),
            device: Some(1),
        }),
        modified: Some(Timestamp { secs: 0, nanos: 0 }),
        canonical: Some(PathBuf::new(path)),
        children,
    }
}

/// A cache directory with two deletion units: a populated subdirectory and
/// one loose file.
fn mock_cache() -> FsEntry {
    entry(
        "/tmp/t/cache-root",
        EntryKind::Directory,
        0,
        vec![
            entry(
                "/tmp/t/cache-root/pkg",
                EntryKind::Directory,
                0,
                vec![entry("/tmp/t/cache-root/pkg/blob.bin", EntryKind::File, 4_096, vec![])],
            ),
            entry("/tmp/t/cache-root/loose.bin", EntryKind::File, 4_096, vec![]),
        ],
    )
}

fn plan(args: &CleanArgs, root: FsEntry) -> Result<CleanPlan, DiskPulseError> {
    let options = CleanOptions::from(args);
    let (env, jail) = (env(), jail());
    let probes = vec![RootProbe {
        exists: true,
        canonical: root.canonical.clone(),
        entry: Some(root),
    }];
    let inputs = Inputs {
        options: &options,
        env: &env,
        jail: &jail,
        now: Timestamp {
            secs: 1_700_000_000,
            nanos: 0,
        },
        probes: &probes,
    };
    assert!(can_plan(&inputs));
    create_clean_plan(&inputs)
}

/// What is printed of a failure, and the exit code it leads to.
fn failure(error: &DiskPulseError) -> (String, i32) {
    let text = format_error_chain(&error.to_string(), &vec![], Some(error), false);
    (text, exit_code_for(Some(error)))
}

fn shown(screen: &Screen) -> String {
    let mut out = String::new();
    for row in &screen.table {
        for cell in &row.cells {
            out.push_str(&cell.text);
            out.push('|');
        }
        out.push('\n');
    }
    out.push_str(&screen.lines.join("\n"));
    out
}

// ---------------------------------------------------------------------------
// Usage errors
// ---------------------------------------------------------------------------

#[test]
fn yes_without_apply_is_rejected_before_any_io() {
    let args = CleanArgs { yes: true, ..clean() };
    let error = args.validate().unwrap_err();
    let (stderr, code) = failure(&error);
    assert_eq!(code, 2);
    assert!(stderr.contains("--yes requires --apply"), "{stderr}");
}

#[test]
fn yes_without_apply_exits_two_with_exact_message() {
    let error = CleanArgs { yes: true, ..clean() }.validate().unwrap_err();
    let (stderr, code) = failure(&error);
    assert_eq!(code, 2, "stderr={stderr}");
    assert!(stderr.contains("--yes requires --apply"), "unexpected stderr: {stderr}");
    assert!(stderr.contains("--apply"), "hint missing: {stderr}");
    assert!(
        stderr.ends_with("  hint: Add --apply to actually execute, e.g. `diskpulse clean --apply --yes`.\n"),
        "{stderr}"
    );
}

#[test]
fn invalid_min_size_is_a_usage_error_not_a_crash() {
    let args = CleanArgs {
        min_size: Some("100XYZ".to_owned()),
        ..clean()
    };
    let (stderr, code) = failure(&args.validate().unwrap_err());
    assert_eq!(code, 2);
    assert!(stderr.contains("invalid byte size"));
}

#[test]
fn invalid_min_size_string_exits_two() {
    let args = CleanArgs {
        min_size: Some("100XYZ".to_owned()),
        ..clean()
    };
    let (stderr, code) = failure(&args.validate().unwrap_err());
    assert_eq!(code, 2, "stderr={stderr}");
    assert!(stderr.contains("invalid byte size"), "unexpected stderr: {stderr}");
}

#[test]
fn path_and_explicit_targets_is_rejected() {
    let args = CleanArgs {
        targets: vec!["cargo-cache".to_owned()],
        path: Some(PathBuf::new("/tmp")),
        ..clean()
    };
    let (stderr, code) = failure(&args.validate().unwrap_err());
    assert_eq!(code, 2, "mixed --path + target IDs must be a usage error\nstderr: {stderr}");
    assert!(
        stderr.contains("--path cannot be combined with explicit target IDs"),
        "{stderr}"
    );
}

#[test]
fn invalid_sort_criterion_exits_two() {
    let args = VizArgs {
        sort: "bogus".to_owned(),
        ..viz()
    };
    let (stderr, code) = failure(&args.validate().unwrap_err());
    assert_eq!(code, 2, "stderr={stderr}");
    assert!(
        stderr.contains("invalid sort field") && stderr.contains("size, count, name"),
        "unexpected stderr: {stderr}"
    );
}

#[test]
fn unknown_clean_target_exits_two_with_hint() {
    let error = resolve_targets(&vec!["not-a-target".to_owned()], &env()).unwrap_err();
    let (stderr, code) = failure(&error);
    assert_eq!(code, 2, "stderr={stderr}");
    assert!(
        stderr.contains("not-a-target") && stderr.contains("targets --all"),
        "unexpected stderr: {stderr}"
    );
}

#[test]
fn arguments_are_checked_one_after_the_other() {
    assert!(viz().validate().is_ok());
    assert!(clean().validate().is_ok());
    let flag = |args: VizArgs| match args.validate() {
        Err(DiskPulseError::Parse(ParseError::InvalidFlagValue { flag, reason })) => {
            format!("{flag}: {reason}")
        }
        other => panic!("{other:?}"),
    };
    assert_eq!(flag(VizArgs { depth: 0, top: 0, ..viz() }), "depth: must be at least 1");
    assert_eq!(flag(VizArgs { top: 0, ..viz() }), "top: must be at least 1");
    let args = VizArgs {
        min_size: Some("5Q".to_owned()),
        ..viz()
    };
    assert!(matches!(
        args.validate(),
        Err(DiskPulseError::Parse(ParseError::InvalidByteSize { .. }))
    ));
    let args = CleanArgs {
        older_than: Some("soon".to_owned()),
        ..clean()
    };
    assert!(matches!(
        args.validate(),
        Err(DiskPulseError::Parse(ParseError::InvalidDuration { .. }))
    ));
    let args = CleanArgs {
        apply: true,
        yes: true,
        older_than: Some("7d".to_owned()),
        min_size: Some("10M".to_owned()),
        ..clean()
    };
    assert!(args.validate().is_ok());
}

#[test]
fn verbosity_maps_to_levels() {
    let level = |verbose: u8| {
        Cli {
            verbose,
            quiet: false,
            no_color: false,
            json: false,
            command: Commands::Targets(TargetsArgs { all: false }),
        }
        .log_level()
    };
    assert_eq!(level(0), LevelFilter::Warn);
    assert_eq!(level(1), LevelFilter::Info);
    assert_eq!(level(2), LevelFilter::Debug);
    assert_eq!(level(3), LevelFilter::Trace);
    assert_eq!(level(255), LevelFilter::Trace);
}

// ---------------------------------------------------------------------------
// Runs
// ---------------------------------------------------------------------------

#[test]
fn dry_run_never_touches_the_filesystem() {
    let args = CleanArgs {
        path: Some(PathBuf::new("/tmp/t/cache-root")),
        ..clean()
    };
    let plan = plan(&args, mock_cache()).unwrap();
    assert_eq!(plan.total_items, 2);
    let step = after_planning(false, false, &args, plan.total_items);
    assert_eq!(step.next, Next::Stop);
    assert_eq!(step.output, Output::Table);
    assert!(!removes_items(&plan));
    let stdout = shown(&render_clean_plan_table(&plan, false, false, false));
    assert!(stdout.contains("[DRY-RUN MODE]"), "dry-run banner missing: {stdout}");
    assert!(stdout.contains("clean --apply"), "next-step guidance missing: {stdout}");
}

#[test]
fn non_interactive_stdin_aborts_apply_cleanly() {
    let args = CleanArgs {
        path: Some(PathBuf::new("/tmp/t/cache-root")),
        apply: true,
        ..clean()
    };
    let plan = plan(&args, mock_cache()).unwrap();
    let step = after_planning(false, false, &args, plan.total_items);
    assert_eq!(step.next, Next::Confirm);
    assert!(!confirmed(false, true));
    assert!(!confirmed(true, false));
    assert!(confirmed(true, true));
    assert_eq!(CANCELLED, "Operation cancelled by user.");
}

#[test]
fn headless_apply_deletes_items() {
    let args = CleanArgs {
        path: Some(PathBuf::new("/tmp/t/cache-root")),
        apply: true,
        yes: true,
        ..clean()
    };
    let plan = plan(&args, mock_cache()).unwrap();
    assert_eq!(after_planning(false, false, &args, plan.total_items).next, Next::Execute);
    assert!(removes_items(&plan));
    let removed: Vec<&str> = plan.items.iter().map(|item| item.path.text.as_str()).collect();
    assert!(removed.contains(&"/tmp/t/cache-root/pkg"));
    assert!(removed.contains(&"/tmp/t/cache-root/loose.bin"));
    assert!(!removed.contains(&"/tmp/t/cache-root"), "the cache root itself must survive");
    let outcomes = vec![Ok(CleanItemStatus::Deleted), Ok(CleanItemStatus::Deleted)];
    let report = execute_clean_plan(&plan, &outcomes, 12);
    assert_eq!(report_output(false, false), Output::Table);
    let stdout = shown(&render_clean_report_table(&report, false));
    assert!(stdout.contains("Freed"), "freed summary missing: {stdout}");
    assert!(stdout.ends_with("Freed 8.00 KB across 2 items in 12 ms."), "{stdout}");
}

#[test]
fn apply_on_protected_path_fails_without_deleting() {
    let documents = PathBuf::new("/home/alice/Documents");
    let args = CleanArgs {
        path: Some(documents.clone()),
        apply: true,
        yes: true,
        ..clean()
    };
    let root = entry("/home/alice/Documents", EntryKind::Directory, 0, vec![]);
    let error = plan(&args, root).unwrap_err();
    let (stderr, code) = failure(&error);
    assert_eq!(code, 1, "protected paths are runtime errors");
    assert!(stderr.contains("personal data"), "unexpected stderr: {stderr}");
    assert!(validate_path_safety(&jail(), &documents, &Some(documents.clone())).is_err());
}

#[test]
fn empty_plan_apply_json_has_report_shape_not_plan_shape() {
    let args = CleanArgs {
        path: Some(PathBuf::new("/tmp/t")),
        apply: true,
        yes: true,
        ..clean()
    };
    let plan = plan(&args, entry("/tmp/t", EntryKind::Directory, 0, vec![])).unwrap();
    let step = after_planning(true, false, &args, plan.total_items);
    assert_eq!(step.output, Output::Silent);
    assert_eq!(step.next, Next::Execute);
    let report = execute_clean_plan(&plan, &vec![], 0);
    assert_eq!(report_output(true, false), Output::Json);
    assert!(!report.dry_run);
    assert_eq!(report.bytes_freed, 0);
    assert!(!report.plan.is_dry_run);
    // The prompt is not shown when there is nothing to remove.
    let asking = CleanArgs { yes: false, ..args };
    assert_eq!(after_planning(false, false, &asking, 0).next, Next::Execute);
}

#[test]
fn quiet_suppresses_tables_but_not_exit_semantics() {
    let args = CleanArgs {
        path: Some(PathBuf::new("/tmp/t/cache-root")),
        ..clean()
    };
    let step = after_planning(false, true, &args, 2);
    assert_eq!(step.output, Output::Silent);
    assert_eq!(step.next, Next::Stop);
    assert_eq!(report_output(false, true), Output::Silent);
    assert_eq!(report_output(true, true), Output::Json);
    assert_eq!(after_planning(true, true, &args, 2).output, Output::Json);
    assert!(!shows_progress(true, false));
    assert!(!shows_progress(false, true));
    assert!(shows_progress(false, false));
}

#[test]
fn viz_missing_path_exits_one() {
    let error = DiskPulseError::Scan(ScanError::PathNotFound(PathBuf::new(
        "/definitely/not/here-diskpulse-xyz",
    )));
    let head = "failed to inspect /definitely/not/here-diskpulse-xyz";
    let text = format_error_chain(head, &vec![error.to_string()], Some(&error), false);
    assert_eq!(exit_code_for(Some(&error)), 1);
    assert!(text.starts_with("error:"), "errors must use the friendly format");
    assert_eq!(exit_code_for(None), 1);
}

#[test]
fn viz_defaults_to_the_current_directory() {
    assert_eq!(viz_target(&viz()).text, ".");
    let args = VizArgs {
        path: Some(PathBuf::new("/data")),
        ..viz()
    };
    assert_eq!(viz_target(&args).text, "/data");
    assert_eq!(
        scan_banner("/data", 12_345, 67),
        "Scanning: /data ... [12,345 files, 67 dirs scanned]"
    );
}

#[test]
fn failed_deletions_end_the_run_with_exit_code_one() {
    let args = CleanArgs {
        path: Some(PathBuf::new("/tmp/t/cache-root")),
        apply: true,
        yes: true,
        ..clean()
    };
    let plan = plan(&args, mock_cache()).unwrap();
    let outcomes = vec![Ok(CleanItemStatus::Deleted), Err("busy".to_owned())];
    let report = execute_clean_plan(&plan, &outcomes, 3);
    let error = run_outcome(&report).unwrap_err();
    let (stderr, code) = failure(&error);
    assert_eq!(code, 1);
    assert_eq!(
        error.to_string(),
        "failed to delete /tmp/t/cache-root/loose.bin: 1 of 2 item(s) could not be removed"
    );
    assert!(stderr.contains("left in place. Re-run to retry."), "{stderr}");
    let outcomes = vec![Ok(CleanItemStatus::Deleted), Ok(CleanItemStatus::MovedToTrash)];
    assert!(run_outcome(&execute_clean_plan(&plan, &outcomes, 3)).is_ok());
}

// ---------------------------------------------------------------------------
// Listings
// ---------------------------------------------------------------------------

#[test]
fn targets_lists_default_catalog() {
    let listed = visible_targets(&TargetsArgs { all: false }, &env());
    let stdout = shown(&render_targets(&listed, false));
    for expected in ["Cargo Cache", "System Temp", "npm Cache", "Go Build Cache"] {
        assert!(stdout.contains(expected), "{expected} missing from listing");
    }
    assert!(!stdout.contains("opt-in|"));
    assert!(stdout.ends_with("9 target(s) shown; pass --all to include opt-in targets."));
}

#[test]
fn targets_all_includes_opt_in_entries() {
    let listed = visible_targets(&TargetsArgs { all: true }, &env());
    let screen = render_targets(&listed, false);
    let stdout = shown(&screen);
    for expected in ["Xcode Derived Data", "Docker Buildx Cache", "Browser Caches"] {
        assert!(stdout.contains(expected), "{expected} missing from --all");
    }
    assert_eq!(screen.table.len(), 13);
    let header: Vec<&str> = screen.table[0].cells.iter().map(|c| c.text.as_str()).collect();
    assert_eq!(header, ["ID", "Name", "Active", "Paths", "Description"]);
    assert!(screen.table[0].cells.iter().all(|c| c.tone == Tone::Header));
    let xcode = screen.table.iter().find(|row| row.cells[0].text == "xcode").unwrap();
    assert_eq!(xcode.cells[2].text, "opt-in");
    assert_eq!(xcode.cells[2].tone, Tone::DarkYellow);
    assert_eq!(xcode.cells[3].text, "—");
    let cargo = screen.table.iter().find(|row| row.cells[0].text == "cargo-cache").unwrap();
    assert_eq!(cargo.cells[2].text, "default");
    assert_eq!(cargo.cells[2].tone, Tone::Green);
    assert!(cargo.cells[3].text.contains(", "), "{}", cargo.cells[3].text);
}

#[test]
fn plans_are_tabulated_with_a_total() {
    let args = CleanArgs {
        path: Some(PathBuf::new("/tmp/t/cache-root")),
        apply: true,
        ..clean()
    };
    let plan = plan(&args, mock_cache()).unwrap();
    let screen = render_clean_plan_table(&plan, true, true, false);
    assert_eq!(screen.table.len(), 3);
    let header: Vec<&str> = screen.table[0].cells.iter().map(|c| c.text.as_str()).collect();
    assert_eq!(header, ["Target", "Path", "Items", "Reclaimable"]);
    let total: Vec<&str> = screen.table[2].cells.iter().map(|c| c.text.as_str()).collect();
    assert_eq!(total, ["TOTAL", "", "2 items", "8.00 KB"]);
    assert_eq!(screen.table[2].cells[0].tone, Tone::Total);
    assert_eq!(
        screen.lines,
        ["⚠  Applying will move 8.00 KB across 2 items to the trash. Confirmation required unless --yes."]
    );
    let empty = CleanPlan::from_items(vec![], true);
    let screen = render_clean_plan_table(&empty, false, false, false);
    assert!(screen.table.is_empty());
    assert_eq!(
        screen.lines,
        ["No cleanable items found — everything is already tidy."]
    );
}

#[test]
fn reports_list_outcomes_and_failures() {
    let args = CleanArgs {
        path: Some(PathBuf::new("/tmp/t/cache-root")),
        apply: true,
        yes: true,
        ..clean()
    };
    let plan = plan(&args, mock_cache()).unwrap();
    let outcomes = vec![Ok(CleanItemStatus::MovedToTrash), Err("busy".to_owned())];
    let report: CleanReport = execute_clean_plan(&plan, &outcomes, 1_234);
    let screen = render_clean_report_table(&report, false);
    assert_eq!(screen.table[1].cells[3].tone, Tone::Cyan);
    assert_eq!(screen.table[2].cells[3].tone, Tone::Red);
    assert!(screen.table[2].cells[3].text.contains("busy"));
    assert_eq!(
        screen.lines,
        [
            "Freed 4.00 KB across 1 items in 1234 ms.",
            "warning: 1 item(s) failed; see the table above for reasons.",
        ]
    );
    let dry_args = CleanArgs { apply: false, yes: false, ..args };
    let dry = self::plan(&dry_args, mock_cache()).unwrap();
    let report = execute_clean_plan(&dry, &vec![], 0);
    let screen = render_clean_report_table(&report, false);
    assert_eq!(screen.table[1].cells[3].tone, Tone::DarkYellow);
    assert_eq!(screen.lines[1], "Dry run — nothing was deleted.");
}

// ---------------------------------------------------------------------------
// Messages
// ---------------------------------------------------------------------------

#[test]
fn error_chains_indent_each_cause() {
    let error = DiskPulseError::Scan(ScanError::PermissionDenied(PathBuf::new("/root/secret")));
    let text = format_error_chain(
        "failed to inspect /root/secret",
        &vec!["first".to_owned(), "second".to_owned()],
        Some(&error),
        false,
    );
    assert_eq!(
        text,
        "error: failed to inspect /root/secret\n  └── Caused by: first\n    └── Caused by: second\n  hint: Check permissions on the path, or re-run with broader read access.\n"
    );
    assert_eq!(
        format_error_chain("oops", &vec![], None, true),
        "\u{1b}[1m\u{1b}[31merror:\u{1b}[39m\u{1b}[0m oops\n"
    );
}

#[test]
fn every_domain_error_has_a_hint() {
    let p = || PathBuf::new("/x");
    let cases: Vec<(DiskPulseError, &str)> = vec![
        (
            DiskPulseError::Safety(SafetyError::InvalidCliCombination("--yes".to_owned())),
            "Add --apply",
        ),
        (
            DiskPulseError::Safety(SafetyError::InvalidCliCombination("--path".to_owned())),
            "Review the conflicting flags",
        ),
        (DiskPulseError::Safety(SafetyError::ProtectedUserData(p())), "diskpulse targets"),
        (DiskPulseError::Safety(SafetyError::ProtectedHomeRoot(p())), "~/.cache"),
        (DiskPulseError::Safety(SafetyError::ProtectedSystemPath(p())), "System locations"),
        (
            DiskPulseError::Safety(SafetyError::SymlinkEscape { link: p(), target: p() }),
            "skipped by design",
        ),
        (
            DiskPulseError::Parse(ParseError::InvalidSortField("x".to_owned())),
            "size, count, name",
        ),
        (
            DiskPulseError::Parse(ParseError::InvalidByteSize {
                input: "x".to_owned(),
                reason: "y".to_owned(),
            }),
            "size suffixes",
        ),
        (
            DiskPulseError::Parse(ParseError::InvalidDuration {
                input: "x".to_owned(),
                reason: "y".to_owned(),
            }),
            "duration suffixes",
        ),
        (
            DiskPulseError::Parse(ParseError::InvalidFlagValue {
                flag: "x".to_owned(),
                reason: "y".to_owned(),
            }),
            "Re-check",
        ),
        (DiskPulseError::Scan(ScanError::PathNotFound(p())), "Verify spelling"),
        (DiskPulseError::Scan(ScanError::PermissionDenied(p())), "permissions"),
        (DiskPulseError::Scan(ScanError::FilesystemLoopDetected(p())), "filesystem loop"),
        (
            DiskPulseError::Clean(CleanError::TargetNotFound("x".to_owned())),
            "targets --all",
        ),
        (
            DiskPulseError::Clean(CleanError::TrashUnsupported("x".to_owned())),
            "left in place",
        ),
        (DiskPulseError::Io(IoError::other("x")), "usually transient"),
    ];
    for (error, expected) in cases {
        let hint = remediation_hint(Some(&error)).unwrap();
        assert!(hint.contains(expected), "{hint} lacks {expected}");
    }
    assert_eq!(remediation_hint(None), None);
}

#[test]
fn colors_follow_flag_and_environment() {
    assert!(colors_wanted(false, false, false));
    assert!(!colors_wanted(true, false, true));
    assert!(!colors_wanted(false, true, false));
    assert!(colors_wanted(false, true, true));
    assert_eq!(heading("x", false), "x");
    assert_eq!(heading("x", true), "\u{1b}[1m\u{1b}[36mx\u{1b}[39m\u{1b}[0m");
    assert_eq!(dim("x", true), "\u{1b}[2mx\u{1b}[0m");
    assert_eq!(success("x", true), "\u{1b}[32mx\u{1b}[39m");
    assert_eq!(warning("x", true), "\u{1b}[33mx\u{1b}[39m");
}

#[test]
fn counts_and_prompts_are_worded() {
    assert_eq!(item_count_label(0), "0 items");
    assert_eq!(item_count_label(1), "1 item");
    assert_eq!(item_count_label(1_234), "1,234 items");
    assert_eq!(
        confirmation_prompt(1_234, false),
        "Permanently delete 1234 items of cached data?"
    );
    assert_eq!(
        apply_warning("1.0 GB", "7", false),
        "Applying will permanently delete 1.0 GB across 7 items."
    );
}
