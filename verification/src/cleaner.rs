//! Safety-first cache cleaning engine.
//!
//! Planning never mutates anything: it enumerates candidate items from the
//! registered target roots, applies age/size filters, and verifies every
//! candidate against the safety jail. Removal re-verifies safety immediately
//! before each item and quarantines symlinks (only ever unlinking the link
//! itself).

pub use crate::execution::{
    begin_tree_removal, deletion_failed, execute_clean_plan, removal_status, remove_item,
    removes_items, safe_remove_dir_all_one_fs, tree_step, ItemStat, RemovalAction, TreeAction,
    TreeEvent, TreeState, TreeStep, WalkedEntry, WalkedStat,
};
pub use crate::jail::{
    canonicalize_for_jail, cleanable_temp_prefixes, ensure_safe_location, is_cleanable_temp,
    lexical_normalize, protected_user_dirs, static_system_roots, static_temp_prefixes,
    strip_verbatim_prefix, system_roots, validate_path_safety, windows_dynamic_system_roots,
    JailContext, UserDirectories, WindowsVariables,
};
pub use crate::models::{
    CleanItem, CleanItemResult, CleanItemStatus, CleanPlan, CleanReport, TargetSummary,
};
pub use crate::planning::{
    can_plan, create_clean_plan, crosses_devices, default_targets, effective_cutoff, plan_roots,
    resolve_targets, tree_size, CleanOptions, FsEntry, Inputs, PlanRoot, RootProbe,
};
pub use crate::registry::{
    get_registered_targets, CleanTargetDef, Environment, SYSTEM_TEMP_MIN_AGE,
};
