//! Tree aggregation, ordering, filtering and plan totals.

use diskpulse::models::{CleanItem, CleanItemStatus, CleanPlan, DirectoryNode};
use diskpulse::path::PathBuf;

fn dir_node(name: &str) -> DirectoryNode {
    DirectoryNode::new(name.to_string(), PathBuf::new(name), true)
}

fn file_node(name: &str, size: u64, apparent: u64) -> DirectoryNode {
    let mut node = DirectoryNode::new(name.to_string(), PathBuf::new(name), false);
    node.size = size;
    node.apparent_size = apparent;
    node
}

fn clean_item(path: &str, size: u64, id: &str, name: &str) -> CleanItem {
    CleanItem {
        path: PathBuf::new(path),
        size,
        target_id: id.to_string(),
        target_name: name.to_string(),
        is_dir: false,
        modified: None,
    }
}

#[test]
fn add_child_aggregates_recursively() {
    let mut docs = dir_node("docs");
    docs.add_child(file_node("a.txt", 100, 100));
    docs.add_child(file_node("b.bin", 200, 320));
    assert_eq!(docs.size, 300);
    assert_eq!(docs.apparent_size, 420);
    assert_eq!(docs.file_count, 2);
    assert_eq!(docs.dir_count, 0);

    let mut pics = dir_node("pics");
    pics.add_child(file_node("c.raw", 40, 40));

    let mut root = dir_node("root");
    root.add_child(docs);
    root.add_child(pics);
    root.add_child(file_node("top.txt", 7, 7));

    assert_eq!(root.size, 300 + 40 + 7);
    assert_eq!(root.apparent_size, 420 + 40 + 7);
    assert_eq!(root.file_count, 4);
    assert_eq!(root.dir_count, 2);
}

#[test]
fn file_leaf_counts_itself() {
    let leaf = file_node("x", 1, 1);
    assert_eq!(leaf.file_count, 1);
    assert_eq!(leaf.dir_count, 0);

    let empty_dir = dir_node("empty");
    assert_eq!(empty_dir.file_count, 0);
    assert_eq!(empty_dir.dir_count, 0);
}

#[test]
fn sort_by_size_descending_orders_every_level() {
    let mut inner = dir_node("inner");
    inner.add_child(file_node("small", 5, 5));
    inner.add_child(file_node("large", 45, 45));

    let mut root = dir_node("root");
    root.add_child(inner); // size 50
    root.add_child(file_node("tiny", 10, 10));
    root.add_child(file_node("big", 70, 70));

    root.sort_by_size_descending();

    let names: Vec<&str> = root.children.iter().map(|c| c.name.as_str()).collect();
    assert_eq!(names, vec!["big", "inner", "tiny"]);

    let inner_names: Vec<&str> = root.children[1]
        .children
        .iter()
        .map(|c| c.name.as_str())
        .collect();
    assert_eq!(inner_names, vec!["large", "small"]);
}

#[test]
fn sort_by_name_orders_alphabetically() {
    let mut nested = dir_node("nested");
    nested.add_child(file_node("zeta", 1, 1));
    nested.add_child(file_node("beta", 1, 1));

    let mut root = dir_node("root");
    root.add_child(file_node("mike", 1, 1));
    root.add_child(file_node("alpha", 1, 1));
    root.add_child(nested);

    root.sort_by_name();

    let names: Vec<&str> = root.children.iter().map(|c| c.name.as_str()).collect();
    assert_eq!(names, vec!["alpha", "mike", "nested"]);
    let nested_names: Vec<&str> = root.children[2]
        .children
        .iter()
        .map(|c| c.name.as_str())
        .collect();
    assert_eq!(nested_names, vec!["beta", "zeta"]);
}

#[test]
fn sort_by_count_descending_keeps_ties_stable() {
    let make = |name: &str, files: usize| {
        let mut d = dir_node(name);
        for i in 0..files {
            d.add_child(file_node(&format!("f{i}"), 1, 1));
        }
        d
    };

    let mut root = dir_node("root");
    root.add_child(make("one", 1));
    root.add_child(make("three", 3));
    root.add_child(make("two", 2));
    root.add_child(make("one-b", 1));
    root.add_child(make("one-c", 1));

    root.sort_by_count_descending();

    let names: Vec<&str> = root.children.iter().map(|c| c.name.as_str()).collect();
    assert_eq!(names, vec!["three", "two", "one", "one-b", "one-c"]);
}

#[test]
fn filter_min_size_prunes_subtrees_recursively() {
    let mut medium = dir_node("medium");
    medium.add_child(file_node("dust", 5, 5));
    medium.add_child(file_node("keeper", 150, 150));

    let mut root = dir_node("root");
    root.add_child(file_node("big", 500, 500));
    root.add_child(file_node("small", 10, 10));
    root.add_child(medium);

    let original_root_size = root.size;
    root.filter_min_size(100);

    let names: Vec<&str> = root.children.iter().map(|c| c.name.as_str()).collect();
    assert_eq!(names, vec!["big", "medium"]);

    let medium = &root.children[1];
    let inner: Vec<&str> = medium.children.iter().map(|c| c.name.as_str()).collect();
    assert_eq!(inner, vec!["keeper"]);

    assert_eq!(root.size, original_root_size);
}

#[test]
fn retain_top_n_limits_each_level_without_corruption() {
    let mut kept = dir_node("kept");
    kept.add_child(file_node("k1", 1, 1));
    kept.add_child(file_node("k2", 2, 2));
    kept.add_child(file_node("k3", 3, 3));

    let mut root = dir_node("root");
    root.add_child(kept);
    root.add_child(file_node("second", 9, 9));
    root.add_child(file_node("third", 8, 8));

    let kept_size_before = root.children[0].size;
    root.retain_top_n(2);

    assert_eq!(root.children.len(), 2);
    assert_eq!(root.children[0].name, "kept");
    assert_eq!(root.children[1].name, "second");

    let kept = &root.children[0];
    assert_eq!(kept.children.len(), 2);
    assert_eq!(kept.size, kept_size_before);
    assert_eq!(kept.children[0].name, "k1");
}

#[test]
fn retain_top_n_tallies_hidden_siblings_per_level() {
    let mut inner = dir_node("inner");
    for i in 0..4 {
        inner.add_child(file_node(&format!("f{i}"), 10, 10));
    }

    let mut root = dir_node("root");
    root.add_child(inner);
    root.add_child(file_node("a", 100, 100));
    root.add_child(file_node("b", 90, 90));
    root.add_child(file_node("c", 80, 80));

    root.retain_top_n(2);

    // Root level: 4 children -> 2 kept, 2 dropped.
    assert_eq!(root.pruned_entries, 2);
    assert_eq!(root.pruned_size, 80 + 90);
    // Inner level: 4 files -> top 2 kept, independent tally.
    let inner = &root.children[0];
    assert_eq!(inner.pruned_entries, 2);
    assert_eq!(inner.pruned_size, 20);
    // Aggregates stay untouched by display filtering.
    assert_eq!(root.size, 310);
}

#[test]
fn filter_min_size_tallies_dropped_entries() {
    let mut root = dir_node("root");
    root.add_child(file_node("big", 500, 500));
    root.add_child(file_node("dust1", 5, 5));
    root.add_child(file_node("dust2", 7, 7));

    root.filter_min_size(100);

    assert_eq!(root.pruned_entries, 2);
    assert_eq!(root.pruned_size, 12);
    assert_eq!(root.size, 512, "aggregates keep reporting truth");
}

#[test]
fn truncate_depth_strips_grandchildren_but_keeps_children() {
    let mut child_a = dir_node("a");
    child_a.add_child(file_node("grandchild", 4, 4));
    let mut child_b = dir_node("b");
    child_b.add_child(file_node("grandchild", 6, 6));

    let mut root = dir_node("root");
    root.add_child(child_a);
    root.add_child(child_b);

    root.truncate_depth(0, 1);

    assert_eq!(root.children.len(), 2);
    assert!(root.children.iter().all(|c| c.children.is_empty()));
}

#[test]
fn truncate_depth_at_max_clears_immediately() {
    let mut root = dir_node("root");
    root.add_child(file_node("only", 1, 1));
    root.truncate_depth(0, 0);
    assert!(root.children.is_empty());
}

#[test]
fn from_items_totals_and_groups_by_target() {
    let items = vec![
        clean_item("/cache/a", 100, "cargo-cache", "Cargo Cache"),
        clean_item("/npm/x", 400, "npm-cache", "npm Cache"),
        clean_item("/cache/b", 250, "cargo-cache", "Cargo Cache"),
    ];

    let plan = CleanPlan::from_items(items, true);
    assert_eq!(plan.total_bytes, 750);
    assert_eq!(plan.total_items, 3);
    assert!(plan.is_dry_run);
    assert_eq!(plan.items.len(), 3);

    assert_eq!(plan.targets.len(), 2);
    assert_eq!(plan.targets[0].target_id, "cargo-cache");
    assert_eq!(plan.targets[0].target_name, "Cargo Cache");
    assert_eq!(plan.targets[0].item_count, 2);
    assert_eq!(plan.targets[0].total_bytes, 350);
    assert_eq!(plan.targets[1].target_id, "npm-cache");
    assert_eq!(plan.targets[1].item_count, 1);
    assert_eq!(plan.targets[1].total_bytes, 400);
}

#[test]
fn from_items_empty_plan_is_zeroed() {
    let plan = CleanPlan::from_items(Vec::new(), false);
    assert_eq!(plan.total_bytes, 0);
    assert_eq!(plan.total_items, 0);
    assert!(plan.targets.is_empty());
    assert!(!plan.is_dry_run);
}

#[test]
fn status_display_strings() {
    assert_eq!(CleanItemStatus::Deleted.to_string(), "deleted");
    assert_eq!(CleanItemStatus::MovedToTrash.to_string(), "moved to trash");
    assert_eq!(
        CleanItemStatus::SkippedDryRun.to_string(),
        "skipped (dry run)"
    );
    assert_eq!(
        CleanItemStatus::Failed("busy".to_string()).to_string(),
        "failed: busy"
    );
}

#[test]
fn breakdown_is_ordered_and_takes_the_first_items_location() {
    let plan = CleanPlan::from_items(
        vec![
            clean_item("/z/1", 1, "zeta", "Zeta"),
            clean_item("/a/1", 2, "alpha", "Alpha"),
            clean_item("/z/2", 4, "zeta", "Renamed"),
            clean_item("/m/1", 8, "mid", "Mid"),
        ],
        false,
    );
    let ids: Vec<&str> = plan.targets.iter().map(|t| t.target_id.as_str()).collect();
    assert_eq!(ids, vec!["alpha", "mid", "zeta"]);
    assert_eq!(plan.targets[2].target_name, "Zeta");
    assert_eq!(plan.targets[2].path, PathBuf::new("/z/1"));
    assert_eq!(plan.targets[2].item_count, 2);
    assert_eq!(plan.targets[2].total_bytes, 5);
    let counted: usize = plan.targets.iter().map(|t| t.item_count).sum();
    let weighed: u64 = plan.targets.iter().map(|t| t.total_bytes).sum();
    assert_eq!(counted, plan.total_items);
    assert_eq!(weighed, plan.total_bytes);
    assert!(!plan.one_file_system);
}

#[test]
fn sorting_many_children_is_stable() {
    let mut root = dir_node("root");
    for i in 0..100u64 {
        root.add_child(file_node(&format!("{i:03}"), i % 7, 0));
    }
    root.sort_by_size_descending();
    for pair in root.children.windows(2) {
        assert!(pair[0].size >= pair[1].size);
        if pair[0].size == pair[1].size {
            assert!(pair[0].name < pair[1].name);
        }
    }
    assert_eq!(root.children.len(), 100);
}

#[test]
fn hidden_entries_are_accounted_for() {
    let mut root = dir_node("root");
    for i in 1..=20u64 {
        root.add_child(file_node(&format!("f{i}"), i * 10, i * 10));
    }
    root.filter_min_size(55);
    root.sort_by_size_descending();
    root.retain_top_n(3);
    let visible: u64 = root.children.iter().map(|c| c.size).sum();
    assert_eq!(visible + root.pruned_size, root.size);
    assert_eq!(root.children.len() as u64 + root.pruned_entries, 20);
    assert_eq!(root.item_total(), 20);
}
