//! Rendering-correctness tests for the `viz` visualization engine.
//!
//! Trees are built in memory (no filesystem), so byte counts are exact and
//! deterministic regardless of platform block allocation.

use diskpulse::binary64::{fill_blocks, percent_of};
use diskpulse::models::{DirectoryNode, ScanResult, ScanSummary};
use diskpulse::path::PathBuf;
use diskpulse::scanner::{ScanOptions, SortCriterion};
use diskpulse::ui::{
    apply_warning, capacity_bar, confirmation_prompt, display_width, format_viz_tree, pad_right,
    size_label, thousands,
};

fn opts() -> ScanOptions {
    ScanOptions {
        max_depth: usize::MAX,
        min_size: None,
        top_n: None,
        apparent_size: false,
        no_ignore: true,
        include_hidden: true,
        one_file_system: false,
        sort_by: SortCriterion::Size,
    }
}

fn dir(name: &str) -> DirectoryNode {
    DirectoryNode::new(name.to_string(), PathBuf::new(name), true)
}

fn file(name: &str, size: u64) -> DirectoryNode {
    let mut node = DirectoryNode::new(name.to_string(), PathBuf::new(name), false);
    node.size = size;
    node.apparent_size = size;
    node
}

/// project/
/// ├── src/            (6144)
/// │   └── assets/     (2048)
/// │       └── logo.png
/// └── README.md
fn fixture() -> ScanResult {
    let mut src = dir("src");
    src.add_child(file("main.rs", 4096));

    let mut assets = dir("assets");
    assets.add_child(file("logo.png", 2048));
    src.add_child(assets);

    let mut root = dir("project");
    root.add_child(src);
    root.add_child(file("README.md", 2048));

    ScanResult {
        summary: ScanSummary {
            root_path: PathBuf::new("/tmp/project"),
            total_size: root.size,
            total_apparent_size: root.apparent_size,
            total_files: root.file_count,
            total_dirs: root.dir_count,
            duration_ms: 7,
            errors_count: 0,
        },
        root,
    }
}

#[test]
fn tree_uses_unicode_branch_glyphs_and_hierarchy() {
    let tree = format_viz_tree(&fixture(), &opts(), true);

    assert!(tree.contains("├── 📁 src"), "first child uses ├:\n{tree}");
    assert!(
        tree.contains("└── 📄 README.md"),
        "last child uses └:\n{tree}"
    );
    // Descendants of a non-last child continue with the vertical rail.
    assert!(tree.contains("│   └── 📁 assets"), "\n{tree}");
    // Grandchildren nest one rail segment deeper.
    let logo_line = tree.lines().find(|l| l.contains("logo.png")).unwrap();
    assert!(
        logo_line.starts_with("│       └── 📄 logo.png"),
        "unexpected nesting: {logo_line:?}"
    );

    // Root card and per-directory counts render.
    assert!(tree.contains("📁 /tmp/project (Total: 8.00 KB, Apparent: 8.00 KB)"));
    let src_line = tree.lines().find(|l| l.contains("📁 src")).unwrap();
    assert!(src_line.contains("[1 dirs, 2 files]"), "{src_line:?}");

    // Footer rule and summary line.
    assert!(tree.contains("Summary: 8.00 KB allocated across 3 files and 2 directories"));
    assert!(tree.contains('─'));
}

#[test]
fn capacity_bar_is_proportional_and_fixed_width() {
    assert_eq!(capacity_bar(f64::to_bits(0.0)), "░░░░░░░░░░");
    assert_eq!(capacity_bar(f64::to_bits(50.0)), "█████░░░░░");
    assert_eq!(capacity_bar(f64::to_bits(100.0)), "██████████");

    // Rounding to nearest block, clamped into range.
    assert_eq!(capacity_bar(f64::to_bits(78.3)), "████████░░");
    assert_eq!(capacity_bar(f64::to_bits(-5.0)), "░░░░░░░░░░");
    assert_eq!(capacity_bar(f64::to_bits(250.0)), "██████████");

    // Every bar is exactly BAR_WIDTH blocks wide.
    for pct in [7.5_f64, 33.3, 66.6, 99.9] {
        let blocks = capacity_bar(pct.to_bits()).chars().count();
        assert_eq!(blocks, 10, "bar for {pct}% has wrong width");
    }
}

#[test]
fn no_color_renders_without_ansi_escapes() {
    let plain = format_viz_tree(&fixture(), &opts(), true);
    assert!(!plain.contains("\x1b["), "escape found in plain output");

    // Structural content is identical either way apart from styling.
    assert!(plain.contains("├── 📁 src"));
    assert!(plain.contains("Scanned in 7ms"));
}

#[test]
fn confirmation_and_banner_wording_tracks_trash_mode() {
    assert_eq!(
        confirmation_prompt(7, false),
        "Permanently delete 7 items of cached data?"
    );
    assert_eq!(
        confirmation_prompt(7, true),
        "Move 7 items of cached data to the trash/recycle bin?"
    );

    assert_eq!(
        apply_warning("21.05 MB", "420", false),
        "Applying will permanently delete 21.05 MB across 420 items."
    );
    assert_eq!(
        apply_warning("21.05 MB", "420", true),
        "Applying will move 21.05 MB across 420 items to the trash."
    );
}

// ---------------------------------------------------------------------------
// Aggregated pruned summary rows (--top / --min-size)
// ---------------------------------------------------------------------------

/// project/            --top 2
/// ├── 📁 big-a/
/// │   └── payload.bin
/// ├── 📁 big-b/
/// │   └── payload.bin
/// └── ⋯ and 3 other items (36.00 KB total)
fn five_dir_fixture() -> ScanResult {
    let mut root = dir("project");
    for (name, size) in [
        ("big-a", 20_480_u64),
        ("big-b", 16_384),
        ("mid-c", 12_288),
        ("mid-d", 8_192),
        ("tiny-e", 4_096),
    ] {
        let mut d = dir(name);
        d.add_child(file("payload.bin", size));
        root.add_child(d);
    }
    ScanResult {
        summary: ScanSummary {
            root_path: PathBuf::new("/tmp/project"),
            total_size: root.size,
            total_apparent_size: root.apparent_size,
            total_files: root.file_count,
            total_dirs: root.dir_count,
            duration_ms: 3,
            errors_count: 0,
        },
        root,
    }
}

#[test]
fn truncated_levels_render_aggregated_pruned_row() {
    let mut result = five_dir_fixture();
    result.root.sort_by_size_descending();
    result.root.retain_top_n(2);

    let tree = format_viz_tree(&result, &opts(), true);

    assert!(
        tree.contains("⋯ and 3 other items ("),
        "missing summary row:\n{tree}"
    );
    assert!(tree.contains("(24.00 KB total)"), "\n{tree}");

    // Glyph balance: visible siblings keep ├; only the summary closes with └.
    for name in ["big-a", "big-b"] {
        let line = tree.lines().find(|l| l.contains(name)).unwrap();
        assert!(
            line.contains("├── "),
            "{name} should not be visually last:\n{line:?}"
        );
    }
    let summary = tree
        .lines()
        .find(|l| l.contains("other items"))
        .expect("summary line");
    assert!(
        summary.starts_with("└── ⋯"),
        "summary row must close the level:\n{summary:?}"
    );

    // The last VISIBLE child is a directory: its rail must continue down to
    // the summary row instead of terminating early.
    let payload_line = tree.lines().find(|l| l.contains("payload.bin")).unwrap();
    assert!(
        payload_line.starts_with("│   "),
        "subtree of last visible dir must stay connected to the summary row:\n{payload_line:?}"
    );
}

#[test]
fn min_size_filtered_levels_render_pruned_row() {
    let mut result = fixture();
    result.root.filter_min_size(3_000);

    let tree = format_viz_tree(&result, &opts(), true);

    // README.md (2048) was dropped from the root level.
    assert!(
        tree.contains("⋯ and 1 other item (2.00 KB total)"),
        "singular wording expected:\n{tree}"
    );
    assert!(!tree.contains("README.md"), "\n{tree}");
    // src survives; totals remain truthful.
    assert!(tree.contains("📁 src"));
    assert!(tree.contains("Total: 8.00 KB"));
}

#[test]
fn fully_filtered_level_still_renders_summary_row() {
    let mut result = fixture();
    result.root.children[1].children.clear(); // assets emptied first
    result.root.filter_min_size(10_000);

    // Every entry below root is gone; the row still explains where bytes went.
    let tree = format_viz_tree(&result, &opts(), true);
    assert!(
        tree.contains("└── ⋯ and"),
        "expected a lone summary row under root:\n{tree}"
    );
}

#[test]
fn wide_unicode_names_keep_bar_column_aligned() {
    let mut root = dir("project");
    for (name, size) in [
        ("ascii.txt", 5_000),
        ("📁_test_文件_🚀.txt", 4_000),
        ("日本語のファイル.txt", 3_000),
        ("микро-файл.dat", 2_000),
    ] {
        root.add_child(file(name, size));
    }

    let tree = format_viz_tree(
        &ScanResult {
            summary: ScanSummary {
                root_path: PathBuf::new("/tmp/project"),
                total_size: root.size,
                total_apparent_size: root.apparent_size,
                total_files: root.file_count,
                total_dirs: root.dir_count,
                duration_ms: 1,
                errors_count: 0,
            },
            root,
        },
        &opts(),
        true,
    );

    // Every entry's proportional bar must start at the same VISUAL COLUMN:
    // cells occupied on the terminal, where CJK/emoji names are two cells
    // per character. Char counts would misalign these lines.
    let offsets: Vec<usize> = tree
        .lines()
        .filter(|l| l.contains('[') && l.contains("%)"))
        .map(|l| {
            let byte_idx = l.find('[').expect("bar bracket");
            display_width(&l[..byte_idx])
        })
        .collect();
    assert_eq!(offsets.len(), 4, "all four entries rendered:\n{tree}");
    let all_same = offsets.iter().all(|o| *o == offsets[0]);
    assert!(all_same, "misaligned bar columns at {offsets:?}:\n{tree}");

    // The width estimator itself: wide chars count double, combining marks
    // and zero-width joiners count for nothing.
    assert_eq!(display_width("ascii"), 5);
    assert_eq!(display_width("日本"), 4);
    assert_eq!(display_width("🚀"), 2);
    assert_eq!(display_width("e\u{301}"), 1); // e + combining acute
}

#[test]
fn display_width_matches_char_count_only_for_ascii() {
    // Guards the discriminator: these names have MORE cells than chars,
    // so the old chars().count() padding could never have aligned them.
    let name = "📁_test_文件_🚀.txt";
    assert!(
        display_width(name) > name.chars().count(),
        "test fixture lost its wide characters"
    );
}

#[test]
fn wide_symbols_count_double_and_marks_nothing() {
    for wide in [
        '\u{25fd}', '\u{25fe}', '\u{267f}', '\u{2693}', '\u{26aa}', '\u{26ab}', '\u{26bd}',
        '\u{26be}', '\u{26c4}', '\u{26c5}', '\u{26ea}', '\u{26f2}', '\u{26f3}', '\u{26f5}',
        '\u{26fa}', '\u{26fd}', '\u{27b0}', '\u{2b1b}', '\u{2b1c}', '\u{1100}', '\u{3042}',
        '\u{ac00}', '\u{ff21}', '\u{1f4c1}', '\u{20000}',
    ] {
        assert_eq!(display_width(&wide.to_string()), 2, "{wide:?}");
    }
    for mark in [
        '\u{5bf}', '\u{5c1}', '\u{5c2}', '\u{93c}', '\u{94d}', '\u{9bc}', '\u{a70}', '\u{ac1}',
        '\u{b3f}', '\u{bcd}', '\u{c3e}', '\u{cbf}', '\u{d4d}', '\u{dca}', '\u{e31}', '\u{eb1}',
        '\u{f71}', '\u{102d}', '\u{17b4}', '\u{200d}', '\u{fe0f}', '\u{1e8d0}', '\u{e0100}',
    ] {
        assert_eq!(display_width(&format!("a{mark}")), 1, "{mark:?}");
    }
    for narrow in ['a', 'é', 'ß', 'я', 'ع', 'अ', '→', '\u{25fc}', '\u{2b1a}', '\u{1f321}'] {
        assert_eq!(display_width(&narrow.to_string()), 1, "{narrow:?}");
    }
}

#[test]
fn larger_percentages_never_fill_fewer_blocks() {
    let filled = |percent: f64| {
        let bar = capacity_bar(percent.to_bits());
        assert_eq!(bar.chars().count(), 10);
        bar.chars().filter(|c| *c == '█').count()
    };
    let mut values: Vec<f64> = vec![-5.0, -0.0, 0.0, 1e-300, 0.99, 78.3, 100.0, 250.0, 1e300];
    for i in 0..4_000_u64 {
        values.push((scrambled(i) % 1_200_000) as f64 / 10_000.0 - 5.0);
    }
    values.sort_by(f64::total_cmp);
    for pair in values.windows(2) {
        assert!(filled(pair[0]) <= filled(pair[1]), "{pair:?}");
    }
    assert_eq!(filled(78.3), 8);
    assert_eq!(filled(-5.0), 0);
    assert_eq!(filled(250.0), 10);
}

// ---------------------------------------------------------------------------
// Numbers
// ---------------------------------------------------------------------------

#[test]
fn thousands_are_grouped() {
    assert_eq!(thousands(0), "0");
    assert_eq!(thousands(999), "999");
    assert_eq!(thousands(1_000), "1,000");
    assert_eq!(thousands(4_821), "4,821");
    assert_eq!(thousands(1_002_003), "1,002,003");
    assert_eq!(thousands(u64::MAX), "18,446,744,073,709,551,615");
}

fn float_size_label(bytes: u64) -> String {
    let units = ["B", "KB", "MB", "GB", "TB", "PB"];
    if bytes < 1024 {
        return format!("{bytes} B");
    }
    let mut value = bytes as f64;
    let mut unit = 0;
    while value >= 1024.0 && unit < units.len() - 1 {
        value /= 1024.0;
        unit += 1;
    }
    format!("{value:.2} {}", units[unit])
}

fn scrambled(seed: u64) -> u64 {
    let mut x = seed.wrapping_mul(0x9E37_79B9_7F4A_7C15);
    x ^= x >> 29;
    x = x.wrapping_mul(0xBF58_476D_1CE4_E5B9);
    x ^= x >> 32;
    x
}

#[test]
fn size_labels_round_like_double_precision() {
    assert_eq!(size_label(0), "0 B");
    assert_eq!(size_label(1023), "1023 B");
    assert_eq!(size_label(1024), "1.00 KB");
    assert_eq!(size_label(143_565), "140.20 KB");
    assert_eq!(size_label(u64::MAX), "16384.00 PB");
    for seed in 1..2_000u64 {
        let bytes = scrambled(seed) >> (seed % 64);
        assert_eq!(size_label(bytes), float_size_label(bytes), "{bytes}");
    }
}

#[test]
fn percentages_round_like_double_precision() {
    for seed in 1..3_000u64 {
        let whole = scrambled(seed) >> (seed % 61);
        let part = scrambled(seed + 77_777) >> (seed % 59);
        let part = if seed % 3 == 0 || whole == 0 { part } else { part % (whole + 1) };
        let percent = if whole > 0 {
            (part as f64 / whole as f64) * 100.0
        } else {
            0.0
        };
        let found = percent_of(part, whole);
        let tenths = found.tenths();
        assert_eq!(
            format!("{}.{}", tenths / 10, tenths % 10),
            format!("{percent:.1}"),
            "{part} of {whole}"
        );
        let blocks = (((percent.clamp(0.0, 100.0) / 100.0) * 10.0).round() as usize).min(10);
        assert_eq!(fill_blocks(&found), blocks, "{part} of {whole}");
        assert_eq!(found.at_least(75), percent >= 75.0);
        assert_eq!(found.at_least(25), percent >= 25.0);
        let bar = capacity_bar(percent.to_bits());
        assert_eq!(bar.chars().filter(|c| *c == '█').count(), blocks, "{percent}");
    }
    for (part, whole) in [(7, 2000), (1, 400), (1, 8), (3, 20), (1, 3), (2, 3), (49, 400)] {
        let percent = (part as f64 / whole as f64) * 100.0;
        let tenths = percent_of(part, whole).tenths();
        assert_eq!(format!("{}.{}", tenths / 10, tenths % 10), format!("{percent:.1}"));
    }
}

#[test]
fn capacity_bars_take_any_double() {
    for odd in [f64::NAN, f64::NEG_INFINITY, -0.0, f64::MIN_POSITIVE, 0.99] {
        assert_eq!(capacity_bar(odd.to_bits()), "░░░░░░░░░░", "{odd}");
    }
    for full in [f64::INFINITY, f64::MAX, 1e300, 95.0] {
        assert_eq!(capacity_bar(full.to_bits()), "██████████", "{full}");
    }
    assert_eq!(capacity_bar(f64::to_bits(5.0)), "█░░░░░░░░░");
    assert_eq!(capacity_bar(f64::to_bits(4.999)), "░░░░░░░░░░");
}

#[test]
fn names_are_padded_to_cells() {
    assert_eq!(pad_right("ab", 4), "ab  ");
    assert_eq!(pad_right("日本", 5), "日本 ");
    assert_eq!(pad_right("abcdef", 4), "abcdef");
    assert_eq!(display_width(""), 0);
    assert_eq!(display_width("a\u{200d}b"), 2);
}

// ---------------------------------------------------------------------------
// Colors and footer
// ---------------------------------------------------------------------------

#[test]
fn colored_tree_wraps_names_sizes_and_bars() {
    let tree = format_viz_tree(&fixture(), &opts(), false);
    assert!(tree.contains("\x1b[36m\x1b[1msrc      \x1b[0m\x1b[39m"), "{tree:?}");
    assert!(tree.contains("\x1b[2m\x1b[37mREADME.md\x1b[39m\x1b[0m"), "{tree:?}");
    assert!(tree.contains("\x1b[32m6.00 KB\x1b[39m"), "{tree:?}");
    // 75% of the parent: red blocks, the rest gray.
    assert!(
        tree.contains("\x1b[31m████████\x1b[39m\x1b[38;2;110;110;110m░░\x1b[39m"),
        "{tree:?}"
    );
    assert!(tree.contains("\x1b[1m8.00 KB\x1b[0m allocated"), "{tree:?}");
}

#[test]
fn footer_tells_unusual_options() {
    let mut options = opts();
    options.sort_by = SortCriterion::Name;
    options.min_size = Some(2048);
    options.top_n = Some(3);
    let tree = format_viz_tree(&fixture(), &options, true);
    assert!(
        tree.ends_with("(Scanned in 7ms) · sorted by name · min 2.00 KB · top 3\n"),
        "{tree}"
    );
    options = opts();
    options.top_n = Some(10);
    let tree = format_viz_tree(&fixture(), &options, true);
    assert!(tree.ends_with("(Scanned in 7ms)\n"), "{tree}");
}

#[test]
fn whole_tree_reads_as_drawn() {
    let rule = "─".repeat(80);
    let expected = format!(
        "📁 /tmp/project (Total: 8.00 KB, Apparent: 8.00 KB)\n\
├── 📁 src       [████████░░] 6.00 KB (75.0%) [1 dirs, 2 files]\n\
│   ├── 📄 main.rs [███████░░░] 4.00 KB (66.7%)\n\
│   └── 📁 assets  [███░░░░░░░] 2.00 KB (33.3%) [0 dirs, 1 files]\n\
│       └── 📄 logo.png [██████████] 2.00 KB (100.0%)\n\
└── 📄 README.md [███░░░░░░░] 2.00 KB (25.0%)\n\
{rule}\n\
Summary: 8.00 KB allocated across 3 files and 2 directories (Scanned in 7ms)\n"
    );
    assert_eq!(format_viz_tree(&fixture(), &opts(), true), expected);
}

#[test]
fn levels_beyond_the_depth_show_no_summary_row() {
    let mut result = five_dir_fixture();
    result.root.children[0].add_child(file("extra.bin", 1));
    result.root.retain_top_n(1);
    result.root.truncate_depth(0, 1);
    let mut options = opts();
    options.max_depth = 1;
    let tree = format_viz_tree(&result, &options, true);
    assert_eq!(tree.matches('⋯').count(), 1, "{tree}");
    assert!(tree.contains("⋯ and 4 other items (40.00 KB total)"), "{tree}");
}

#[test]
fn bars_show_a_tenth_of_the_percentage_to_the_nearest_block() {
    let filled = |percent: f64| {
        capacity_bar(percent.to_bits()).chars().filter(|c| *c == '█').count()
    };
    assert_eq!(filled(5.0), 1);
    assert_eq!(filled(15.0), 2);
    assert_eq!(filled(14.9), 1);
    // Rounding on the way lifts this one over the half.
    assert_eq!(filled(14.999999999999998), 2);
    let mut percent = -3.0;
    while percent < 104.0 {
        let count = filled(percent);
        let clamped = percent.clamp(0.0, 100.0);
        assert!((10.0 * count as f64 - clamped).abs() <= 5.0 + 1e-13, "{percent}: {count}");
        assert_eq!(count, (clamped / 100.0 * 10.0).round() as usize, "{percent}");
        percent += 0.07;
    }
}
