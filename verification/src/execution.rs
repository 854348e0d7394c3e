//! Carrying a plan out: what is done to each item, and what is reported.
//!
//! Every decision is taken here on what was read a moment before; acting on
//! it, and reporting back what came of it, is the caller's part.

use crate::errors::{deletion_message, CleanError, IoError};
use crate::jail::{
    canonicalize_for_jail, ensure_safe_location, lexical, lexical_normalize, JailContext, Refusal,
};
use crate::models::{
    bytes_of, CleanItem, CleanItemResult, CleanItemStatus, CleanPlan, CleanReport, EntryKind,
};
use crate::path::{same_location, PathBuf, Platform};
use crate::planning::{crosses_devices, foreign};
use crate::registry::spelling;
use crate::text::concat;
use crate::util::{device_id, Metadata};
use vstd::prelude::*;
use vstd::string::*;

verus! {

// ---------------------------------------------------------------------------
// Removing one item
// ---------------------------------------------------------------------------
/// What is at the place of a planned item right before its removal, links
/// not followed.
#[derive(Debug)]
pub struct ItemStat {
    pub kind: EntryKind,
    /// Windows: a link that carries the directory attribute itself, as
    /// directory symlinks and junctions do.
    pub directory_link: bool,
    /// Where the item really lies, where the file system could tell.
    pub canonical: Option<PathBuf>,
}

/// How an item is removed.
#[derive(Debug, Clone, Copy, PartialEq, Eq, Structural)]
pub enum RemovalAction {
    /// Unlink a file or a link.
    RemoveFile,
    /// Remove an empty directory, or a Windows link that is one.
    RemoveDir,
    /// Remove a directory with all it holds.
    RemoveTree,
    /// The same, without leaving its device.
    RemoveTreeOneDevice,
    /// Hand the item to the OS trash.
    Trash,
}

/// Why an item is not removed.
pub enum Obstacle {
    /// It could not be looked at.
    Unreadable(Seq<char>),
    /// The jail refuses its location.
    Jailed(Refusal),
}

impl Refusal {
    /// The message shown for this refusal.
    pub open spec fn message(self) -> Seq<char> {
        match self {
            Refusal::System(path) => "refusing to operate on protected system path "@
                + crate::errors::quoted_path(path),
            Refusal::Home(path) => crate::errors::quoted_path(path)
                + " is the home directory root itself; target a safe subfolder (e.g. ~/.cache) instead"@,
            Refusal::UserData(path) => crate::errors::quoted_path(path)
                + " holds personal data and is protected from bulk deletion"@,
        }
    }
}

impl Obstacle {
    /// The reason reported for an item at `path`.
    pub open spec fn reason(self, path: Seq<char>) -> Seq<char> {
        match self {
            Obstacle::Unreadable(message) => deletion_message(path, message),
            Obstacle::Jailed(refusal) => "blocked by safety jail: "@ + refusal.message(),
        }
    }
}

/// Where an item is judged at removal: a link where it stands itself, since
/// only the link goes; anything else at its real location, since that is what
/// the removal touches.
pub open spec fn removal_site(jail: JailContext, path: Seq<char>, stat: ItemStat) -> Seq<char> {
    if stat.kind == EntryKind::Symlink {
        lexical(jail.platform, path, spelling(jail.current_dir))
    } else {
        jail.judged_at(path, spelling(stat.canonical))
    }
}

/// How an item of kind `stat` is removed once the jail allows it. Links are
/// always unlinked in place and never handed to the OS trash.
pub open spec fn removal_way(
    p: Platform,
    stat: ItemStat,
    is_dir: bool,
    use_trash: bool,
    one_file_system: bool,
) -> RemovalAction {
    if stat.kind == EntryKind::Symlink {
        if p == Platform::Windows && stat.directory_link {
            RemovalAction::RemoveDir
        } else {
            RemovalAction::RemoveFile
        }
    } else if use_trash {
        RemovalAction::Trash
    } else if stat.kind != EntryKind::Directory {
        RemovalAction::RemoveFile
    } else if is_dir && one_file_system {
        RemovalAction::RemoveTreeOneDevice
    } else if is_dir {
        RemovalAction::RemoveTree
    } else {
        RemovalAction::RemoveDir
    }
}

/// What is done about the item at `path`.
pub open spec fn removal(
    jail: JailContext,
    path: Seq<char>,
    is_dir: bool,
    use_trash: bool,
    one_file_system: bool,
    stat: Result<ItemStat, IoError>,
) -> Result<RemovalAction, Obstacle> {
    match stat {
        Err(error) => Err(Obstacle::Unreadable(error.message@)),
        Ok(stat) => match jail.verdict(removal_site(jail, path, stat)) {
            Some(refusal) => Err(Obstacle::Jailed(refusal)),
            None => Ok(removal_way(jail.platform, stat, is_dir, use_trash, one_file_system)),
        },
    }
}

/// The reason reported for a failed deletion.
pub fn deletion_failed(path: &PathBuf, source: &IoError) -> (out: String)
    ensures
        out@ == deletion_message(path@, source.message@),
{
    CleanError::DeletionFailed { path: path.clone(), source: source.clone() }.to_string()
}

/// Decide how a single planned item is removed, or why it is not.
///
/// The jail check matches the location the mutation will really touch:
/// - Links are unlinked in place, so the lexical location of the link itself
///   is what matters.
/// - Real files and directories mutate through any symlinked parent chain, so
///   the canonical path decides.
///
/// The plan was built earlier against a read-only scan, so anything on disk
/// may have changed since: `stat` is what was read at the last possible
/// moment.
pub fn remove_item(
    jail: &JailContext,
    path: &PathBuf,
    is_dir: bool,
    use_trash: bool,
    one_file_system: bool,
    stat: &Result<ItemStat, IoError>,
) -> (out: Result<RemovalAction, String>)
    ensures
        match removal(*jail, path@, is_dir, use_trash, one_file_system, *stat) {
            Ok(action) => out == Ok::<RemovalAction, String>(action),
            Err(obstacle) => out matches Err(reason) && reason@ == obstacle.reason(path@),
        },
        out matches Ok(action) ==> {
            &&& *stat matches Ok(found)
            &&& (action == RemovalAction::Trash) == (use_trash && found.kind
                != EntryKind::Symlink)
        },
{
    let stat = match stat {
        Ok(stat) => stat,
        Err(error) => {
            return Err(deletion_failed(path, error));
        },
    };
    let link = stat.kind == EntryKind::Symlink;
    let site = if link {
        lexical_normalize(jail.platform, path, &jail.current_dir)
    } else {
        canonicalize_for_jail(jail, path, &stat.canonical)
    };
    if let Err(safety) = ensure_safe_location(jail, &site) {
        return Err(concat("blocked by safety jail: ", safety.to_string().as_str()));
    }
    Ok(
        if link {
            if jail.platform == Platform::Windows && stat.directory_link {
                RemovalAction::RemoveDir
            } else {
                RemovalAction::RemoveFile
            }
        } else if use_trash {
            RemovalAction::Trash
        } else if stat.kind != EntryKind::Directory {
            RemovalAction::RemoveFile
        } else if is_dir && one_file_system {
            RemovalAction::RemoveTreeOneDevice
        } else if is_dir {
            RemovalAction::RemoveTree
        } else {
            RemovalAction::RemoveDir
        },
    )
}

/// What is recorded once `action` was tried on `path`. A tree that must stay
/// on its device reports its own failures in full.
pub fn removal_status(
    action: RemovalAction,
    path: &PathBuf,
    outcome: &Result<(), IoError>,
) -> (out: Result<CleanItemStatus, String>)
    ensures
        match *outcome {
            Ok(_) => out == Ok::<CleanItemStatus, String>(
                if action == RemovalAction::Trash {
                    CleanItemStatus::MovedToTrash
                } else {
                    CleanItemStatus::Deleted
                },
            ),
            Err(error) => out matches Err(reason) && reason@ == (match action {
                RemovalAction::Trash => "failed to trash "@ + path@ + ": "@ + error.message@,
                RemovalAction::RemoveTreeOneDevice => error.message@,
                _ => deletion_message(path@, error.message@),
            }),
        },
{
    match outcome {
        Ok(_) => if action == RemovalAction::Trash {
            Ok(CleanItemStatus::MovedToTrash)
        } else {
            Ok(CleanItemStatus::Deleted)
        },
        Err(error) => match action {
            RemovalAction::Trash => {
                let mut reason = concat("failed to trash ", path.text.as_str());
                reason.append(": ");
                reason.append(error.message.as_str());
                Err(reason)
            },
            RemovalAction::RemoveTreeOneDevice => Err(error.message.clone()),
            _ => Err(deletion_failed(path, error)),
        },
    }
}

// ---------------------------------------------------------------------------
// Removing a tree without leaving its device
// ---------------------------------------------------------------------------
/// The reason reported where a tree would leave its device.
pub open spec fn crossing_message(path: Seq<char>) -> Seq<char> {
    "refusing to cross mount point at "@ + path
}

/// The device that the removal of the tree at `path` must stay on.
///
/// `expected_dev` optionally pins the tree to a caller-known volume; without
/// it the tree's own device counts.
pub fn begin_tree_removal(
    path: &PathBuf,
    stat: &Result<Metadata, IoError>,
    expected_dev: Option<u64>,
) -> (out: Result<Option<u64>, String>)
    ensures
        match *stat {
            Err(error) => out matches Err(reason) && reason@ == deletion_message(
                path@,
                error.message@,
            ),
            Ok(meta) => if foreign(meta.device, expected_dev) {
                out matches Err(reason) && reason@ == crossing_message(path@)
            } else {
                out == Ok::<Option<u64>, String>(meta.device)
            },
        },
{
    match stat {
        Err(error) => Err(deletion_failed(path, error)),
        Ok(meta) => if crosses_devices(meta, expected_dev) {
            Err(concat("refusing to cross mount point at ", path.text.as_str()))
        } else {
            Ok(device_id(meta))
        },
    }
}

/// An entry that the walk through a tree came by, contents first.
#[derive(Debug)]
pub enum WalkedEntry {
    /// The walk failed.
    Failed(String),
    /// An entry, with what was read of it, links not followed.
    Found { path: PathBuf, stat: Result<WalkedStat, IoError> },
}

/// What was read of an entry of the tree.
#[derive(Debug)]
pub struct WalkedStat {
    pub is_dir: bool,
    pub meta: Metadata,
}

/// What is done about one entry of the tree.
#[derive(Debug, Clone, Copy, PartialEq, Eq, Structural)]
pub enum TreeStep {
    /// The root itself goes last.
    Leave,
    RemoveDir,
    RemoveFile,
}

/// Whether an entry that lies on `device` must not be touched by a removal
/// that stays on `root_dev`.
pub open spec fn off_limits(device: Option<u64>, root_dev: Option<u64>) -> bool {
    device is Some && device != root_dev
}

/// What is done about `entry` of the tree at `root`, or why the removal of
/// the tree ends there.
pub open spec fn entry_step(
    p: Platform,
    root: Seq<char>,
    root_dev: Option<u64>,
    entry: WalkedEntry,
) -> Result<TreeStep, Seq<char>> {
    match entry {
        WalkedEntry::Failed(error) => Err("traversal failed under "@ + root + ": "@ + error@),
        WalkedEntry::Found { path, stat } => if same_location(p, path@, root) {
            Ok(TreeStep::Leave)
        } else {
            match stat {
                Err(error) => Err(deletion_message(path@, error.message@)),
                Ok(stat) => if off_limits(stat.meta.device, root_dev) {
                    Err(crossing_message(path@))
                } else if stat.is_dir {
                    Ok(TreeStep::RemoveDir)
                } else {
                    Ok(TreeStep::RemoveFile)
                },
            }
        },
    }
}

/// What is done about one entry by a removal that refuses to leave its
/// device. Links report their own device, so links into other file systems
/// are still unlinked as links.
pub fn tree_step(p: Platform, root: &PathBuf, root_dev: Option<u64>, entry: &WalkedEntry) -> (out:
    Result<TreeStep, String>)
    ensures
        match out {
            Ok(step) => entry_step(p, root@, root_dev, *entry) == Ok::<TreeStep, Seq<char>>(step),
            Err(reason) => entry_step(p, root@, root_dev, *entry) == Err::<TreeStep, Seq<char>>(
                reason@,
            ),
        },
{
    match entry {
        WalkedEntry::Failed(error) => {
            let mut reason = concat("traversal failed under ", root.text.as_str());
            reason.append(": ");
            reason.append(error.as_str());
            Err(reason)
        },
        WalkedEntry::Found { path, stat } => {
            if path.same_as(root, p) {
                return Ok(TreeStep::Leave);
            }
            match stat {
                Err(error) => Err(deletion_failed(path, error)),
                Ok(stat) => {
                    if let Some(dev) = device_id(&stat.meta) {
                        let stays = match root_dev {
                            Some(root_dev) => dev == root_dev,
                            None => false,
                        };
                        if !stays {
                            return Err(
                                concat("refusing to cross mount point at ", path.text.as_str()),
                            );
                        }
                    }
                    if stat.is_dir {
                        Ok(TreeStep::RemoveDir)
                    } else {
                        Ok(TreeStep::RemoveFile)
                    }
                },
            }
        },
    }
}

/// How far the removal of a tree has come.
#[derive(Debug)]
pub enum TreeState {
    Start,
    /// Entries are looked at, contents first.
    Walking { device: Option<u64> },
    /// The removal of an entry is tried.
    Removing { device: Option<u64>, path: PathBuf },
    /// The removal of the tree's root is tried.
    RemovingRoot,
    Finished(Result<(), String>),
}

/// The mathematical value of a [`TreeState`].
pub enum TreePhase {
    Start,
    Walking(Option<u64>),
    Removing(Option<u64>, Seq<char>),
    RemovingRoot,
    Finished(Result<(), Seq<char>>),
}

impl View for TreeState {
    type V = TreePhase;

    open spec fn view(&self) -> TreePhase {
        match *self {
            TreeState::Start => TreePhase::Start,
            TreeState::Walking { device } => TreePhase::Walking(device),
            TreeState::Removing { device, path } => TreePhase::Removing(device, path@),
            TreeState::RemovingRoot => TreePhase::RemovingRoot,
            TreeState::Finished(Ok(_)) => TreePhase::Finished(Ok(())),
            TreeState::Finished(Err(reason)) => TreePhase::Finished(Err(reason@)),
        }
    }
}

/// What happened to the tree.
#[derive(Debug)]
pub enum TreeEvent {
    /// Its root was looked at, links not followed.
    Begun(Result<Metadata, IoError>),
    /// The walk came by an entry.
    Walked(WalkedEntry),
    /// The walk came to its end.
    WalkEnded,
    /// The removal that was asked for was tried.
    Tried(Result<(), IoError>),
}

/// What is to be done to the tree.
#[derive(Debug)]
pub enum TreeAction {
    /// Go on to the next entry.
    Walk,
    RemoveDir(PathBuf),
    RemoveFile(PathBuf),
    /// Nothing any more.
    Stop,
}

/// The mathematical value of a [`TreeAction`].
pub enum TreeDeed {
    Walk,
    RemoveDir(Seq<char>),
    RemoveFile(Seq<char>),
    Stop,
}

impl View for TreeAction {
    type V = TreeDeed;

    open spec fn view(&self) -> TreeDeed {
        match *self {
            TreeAction::Walk => TreeDeed::Walk,
            TreeAction::RemoveDir(path) => TreeDeed::RemoveDir(path@),
            TreeAction::RemoveFile(path) => TreeDeed::RemoveFile(path@),
            TreeAction::Stop => TreeDeed::Stop,
        }
    }
}

/// How a tree's removal goes on: children vanish before their parents and the
/// root goes last; the first thing that goes wrong is the last thing that
/// happens. An event out of turn changes nothing.
pub open spec fn tree_next(
    p: Platform,
    root: Seq<char>,
    expected_dev: Option<u64>,
    phase: TreePhase,
    event: TreeEvent,
) -> (TreePhase, TreeDeed) {
    match (phase, event) {
        (TreePhase::Start, TreeEvent::Begun(Err(error))) => (
            TreePhase::Finished(Err(deletion_message(root, error.message@))),
            TreeDeed::Stop,
        ),
        (TreePhase::Start, TreeEvent::Begun(Ok(meta))) => if foreign(meta.device, expected_dev) {
            (TreePhase::Finished(Err(crossing_message(root))), TreeDeed::Stop)
        } else {
            (TreePhase::Walking(meta.device), TreeDeed::Walk)
        },
        (TreePhase::Walking(device), TreeEvent::Walked(entry)) => match entry_step(
            p,
            root,
            device,
            entry,
        ) {
            Ok(TreeStep::Leave) => (phase, TreeDeed::Walk),
            Ok(TreeStep::RemoveDir) => (
                TreePhase::Removing(device, entry.place()),
                TreeDeed::RemoveDir(entry.place()),
            ),
            Ok(TreeStep::RemoveFile) => (
                TreePhase::Removing(device, entry.place()),
                TreeDeed::RemoveFile(entry.place()),
            ),
            Err(reason) => (TreePhase::Finished(Err(reason)), TreeDeed::Stop),
        },
        (TreePhase::Walking(_), TreeEvent::WalkEnded) => (
            TreePhase::RemovingRoot,
            TreeDeed::RemoveDir(root),
        ),
        (TreePhase::Removing(device, _), TreeEvent::Tried(Ok(_))) => (
            TreePhase::Walking(device),
            TreeDeed::Walk,
        ),
        (TreePhase::Removing(_, path), TreeEvent::Tried(Err(error))) => (
            TreePhase::Finished(Err(deletion_message(path, error.message@))),
            TreeDeed::Stop,
        ),
        (TreePhase::RemovingRoot, TreeEvent::Tried(Ok(_))) => (
            TreePhase::Finished(Ok(())),
            TreeDeed::Stop,
        ),
        (TreePhase::RemovingRoot, TreeEvent::Tried(Err(error))) => (
            TreePhase::Finished(Err(deletion_message(root, error.message@))),
            TreeDeed::Stop,
        ),
        _ => (phase, TreeDeed::Stop),
    }
}

impl WalkedEntry {
    /// Where the entry lies.
    pub open spec fn place(self) -> Seq<char> {
        match self {
            WalkedEntry::Found { path, .. } => path@,
            WalkedEntry::Failed(_) => Seq::empty(),
        }
    }
}

/// Bottom-up directory removal that refuses to cross file systems, one step
/// at a time.
///
/// A plain recursive removal descends through mount points: a cache directory
/// containing a mounted volume would be wiped across the boundary. Here an
/// entry on another device than the tree's root stops the whole item, leaving
/// everything above the boundary intact.
///
/// `expected_dev` optionally pins the tree to a caller-known volume; without
/// it the tree's own device counts.
pub fn safe_remove_dir_all_one_fs(
    p: Platform,
    root: &PathBuf,
    expected_dev: Option<u64>,
    state: TreeState,
    event: TreeEvent,
) -> (out: (TreeState, TreeAction))
    ensures
        (out.0@, out.1@) == tree_next(p, root@, expected_dev, state@, event),
{
    match (state, event) {
        (TreeState::Start, TreeEvent::Begun(stat)) => match begin_tree_removal(
            root,
            &stat,
            expected_dev,
        ) {
            Ok(device) => (TreeState::Walking { device }, TreeAction::Walk),
            Err(reason) => (TreeState::Finished(Err(reason)), TreeAction::Stop),
        },
        (TreeState::Walking { device }, TreeEvent::Walked(entry)) => match tree_step(
            p,
            root,
            device,
            &entry,
        ) {
            Ok(step) => match (step, entry) {
                (TreeStep::RemoveDir, WalkedEntry::Found { path, .. }) => (
                    TreeState::Removing { device, path: path.clone() },
                    TreeAction::RemoveDir(path),
                ),
                (TreeStep::RemoveFile, WalkedEntry::Found { path, .. }) => (
                    TreeState::Removing { device, path: path.clone() },
                    TreeAction::RemoveFile(path),
                ),
                _ => (TreeState::Walking { device }, TreeAction::Walk),
            },
            Err(reason) => (TreeState::Finished(Err(reason)), TreeAction::Stop),
        },
        (TreeState::Walking { .. }, TreeEvent::WalkEnded) => (
            TreeState::RemovingRoot,
            TreeAction::RemoveDir(root.clone()),
        ),
        (TreeState::Removing { device, path }, TreeEvent::Tried(outcome)) => match outcome {
            Ok(_) => (TreeState::Walking { device }, TreeAction::Walk),
            Err(error) => (
                TreeState::Finished(Err(deletion_failed(&path, &error))),
                TreeAction::Stop,
            ),
        },
        (TreeState::RemovingRoot, TreeEvent::Tried(outcome)) => match outcome {
            Ok(_) => (TreeState::Finished(Ok(())), TreeAction::Stop),
            Err(error) => (
                TreeState::Finished(Err(deletion_failed(root, &error))),
                TreeAction::Stop,
            ),
        },
        (state, _) => (state, TreeAction::Stop),
    }
}

// ---------------------------------------------------------------------------
// Reporting
// ---------------------------------------------------------------------------
/// What is recorded for an item whose removal came out as `outcome`.
pub open spec fn recorded(outcome: Result<CleanItemStatus, String>) -> CleanItemStatus {
    match outcome {
        Ok(status) => status,
        Err(reason) => CleanItemStatus::Failed(reason),
    }
}

/// The bytes of those of the first `n` items whose removal succeeded.
pub open spec fn freed_bytes(
    items: Seq<CleanItem>,
    outcomes: Seq<Result<CleanItemStatus, String>>,
    n: nat,
) -> nat
    decreases n,
{
    if n == 0 {
        0
    } else {
        freed_bytes(items, outcomes, (n - 1) as nat) + (if outcomes[n - 1] is Ok {
            items[n - 1].size as nat
        } else {
            0
        })
    }
}

/// How many of the first `n` removals succeeded.
pub open spec fn freed_count(outcomes: Seq<Result<CleanItemStatus, String>>, n: nat) -> nat
    decreases n,
{
    if n == 0 {
        0
    } else {
        freed_count(outcomes, (n - 1) as nat) + (if outcomes[n - 1] is Ok {
            1nat
        } else {
            0
        })
    }
}

proof fn lemma_freed_bounds(
    items: Seq<CleanItem>,
    outcomes: Seq<Result<CleanItemStatus, String>>,
    m: nat,
    n: nat,
)
    requires
        m <= n,
    ensures
        freed_bytes(items, outcomes, m) <= freed_bytes(items, outcomes, n),
        freed_count(outcomes, n) <= n,
    decreases n,
{
    if n > 0 {
        if m < n {
            lemma_freed_bounds(items, outcomes, m, (n - 1) as nat);
        } else {
            lemma_freed_bounds(items, outcomes, (m - 1) as nat, (n - 1) as nat);
        }
    }
}

/// Whether the items of `plan` are to be removed at all: those of a dry-run
/// plan never are.
pub fn removes_items(plan: &CleanPlan) -> (yes: bool)
    ensures
        yes == !plan.is_dry_run,
{
    !plan.is_dry_run
}

/// The report of a plan that was carried out: `outcomes` holds, in order,
/// what came of each item's removal.
///
/// Dry-run plans are never carried out: every item is reported as
/// [`CleanItemStatus::SkippedDryRun`]. Failures are recorded per item; they
/// never stop the others.
pub fn execute_clean_plan(
    plan: &CleanPlan,
    outcomes: &Vec<Result<CleanItemStatus, String>>,
    duration_ms: u64,
) -> (report: CleanReport)
    requires
        plan.is_dry_run || outcomes@.len() == plan.items@.len(),
        plan.is_dry_run || freed_bytes(plan.items@, outcomes@, plan.items@.len()) <= u64::MAX,
    ensures
        report.plan.items@ == plan.items@,
        report.plan.targets@ == plan.targets@,
        report.plan.total_bytes == plan.total_bytes,
        report.plan.total_items == plan.total_items,
        report.plan.is_dry_run == plan.is_dry_run,
        report.plan.one_file_system == plan.one_file_system,
        report.results@.len() == plan.items@.len(),
        forall|i: int|
            0 <= i < plan.items@.len() ==> {
                let result = #[trigger] report.results@[i];
                &&& result.path == plan.items@[i].path
                &&& result.size == plan.items@[i].size
                &&& result.target_id == plan.items@[i].target_id
                &&& result.status == (if plan.is_dry_run {
                    CleanItemStatus::SkippedDryRun
                } else {
                    recorded(outcomes@[i])
                })
            },
        report.bytes_freed == (if plan.is_dry_run {
            0
        } else {
            freed_bytes(plan.items@, outcomes@, plan.items@.len())
        }),
        report.items_freed == (if plan.is_dry_run {
            0
        } else {
            freed_count(outcomes@, plan.items@.len())
        }),
        report.errors_count == (if plan.is_dry_run {
            0
        } else {
            plan.items@.len() - freed_count(outcomes@, plan.items@.len())
        }),
        report.duration_ms == duration_ms,
        report.dry_run == plan.is_dry_run,
{
    let mut results: Vec<CleanItemResult> = Vec::new();
    let mut bytes_freed: u64 = 0;
    let mut items_freed: usize = 0;
    let mut errors_count: usize = 0;
    let mut i: usize = 0;
    while i < plan.items.len()
        invariant
            i <= plan.items@.len(),
            plan.is_dry_run || outcomes@.len() == plan.items@.len(),
            plan.is_dry_run || freed_bytes(plan.items@, outcomes@, plan.items@.len()) <= u64::MAX,
            results@.len() == i,
            forall|j: int|
                0 <= j < i ==> {
                    let result = #[trigger] results@[j];
                    &&& result.path == plan.items@[j].path
                    &&& result.size == plan.items@[j].size
                    &&& result.target_id == plan.items@[j].target_id
                    &&& result.status == (if plan.is_dry_run {
                        CleanItemStatus::SkippedDryRun
                    } else {
                        recorded(outcomes@[j])
                    })
                },
            plan.is_dry_run ==> bytes_freed == 0 && items_freed == 0 && errors_count == 0,
            !plan.is_dry_run ==> {
                &&& bytes_freed == freed_bytes(plan.items@, outcomes@, i as nat)
                &&& items_freed == freed_count(outcomes@, i as nat)
                &&& errors_count == i - items_freed
                &&& items_freed <= i
            },
        decreases plan.items.len() - i,
    {
        let item = &plan.items[i];
        let status = if plan.is_dry_run {
            CleanItemStatus::SkippedDryRun
        } else {
            proof {
                lemma_freed_bounds(plan.items@, outcomes@, (i + 1) as nat, plan.items@.len());
                lemma_freed_bounds(plan.items@, outcomes@, (i + 1) as nat, (i + 1) as nat);
            }
            match &outcomes[i] {
                Ok(status) => {
                    bytes_freed = bytes_freed + item.size;
                    items_freed = items_freed + 1;
                    status.clone()
                },
                Err(reason) => {
                    errors_count = errors_count + 1;
                    CleanItemStatus::Failed(reason.clone())
                },
            }
        };
        results.push(
            CleanItemResult {
                path: item.path.clone(),
                size: item.size,
                target_id: item.target_id.clone(),
                status,
            },
        );
        i += 1;
    }
    CleanReport {
        plan: plan.clone(),
        results,
        bytes_freed,
        items_freed,
        errors_count,
        duration_ms,
        dry_run: plan.is_dry_run,
    }
}

// ---------------------------------------------------------------------------
// Laws
// ---------------------------------------------------------------------------
/// A link is only ever unlinked itself: it is neither handed to the trash nor
/// removed as a tree, whatever mode is asked for.
pub proof fn law_links_only_unlinked(
    jail: JailContext,
    path: Seq<char>,
    is_dir: bool,
    use_trash: bool,
    one_file_system: bool,
    stat: ItemStat,
)
    requires
        stat.kind == EntryKind::Symlink,
    ensures
        removal(jail, path, is_dir, use_trash, one_file_system, Ok(stat)) matches Ok(action)
            ==> action == RemovalAction::RemoveFile || (jail.platform == Platform::Windows
            && action == RemovalAction::RemoveDir),
{
}

/// Nothing is removed whose place the jail refuses right before the removal,
/// whatever the plan said.
pub proof fn law_removal_rechecks_jail(
    jail: JailContext,
    path: Seq<char>,
    is_dir: bool,
    use_trash: bool,
    one_file_system: bool,
    stat: Result<ItemStat, IoError>,
)
    ensures
        removal(jail, path, is_dir, use_trash, one_file_system, stat) matches Ok(_) ==> stat is Ok
            && jail.verdict(removal_site(jail, path, stat->Ok_0)) is None,
{
}

/// How far a tree's removal has come after the first `n` events.
pub open spec fn tree_phase(
    p: Platform,
    root: Seq<char>,
    expected_dev: Option<u64>,
    events: Seq<TreeEvent>,
    n: nat,
) -> TreePhase
    decreases n,
{
    if n == 0 || n > events.len() {
        TreePhase::Start
    } else {
        tree_next(
            p,
            root,
            expected_dev,
            tree_phase(p, root, expected_dev, events, (n - 1) as nat),
            events[n - 1],
        ).0
    }
}

/// What is done to a tree on the event `n`.
pub open spec fn tree_deed(
    p: Platform,
    root: Seq<char>,
    expected_dev: Option<u64>,
    events: Seq<TreeEvent>,
    n: nat,
) -> TreeDeed {
    tree_next(
        p,
        root,
        expected_dev,
        tree_phase(p, root, expected_dev, events, n),
        events[n as int],
    ).1
}

/// Once a tree's removal has ended, in whatever way, nothing is done to the
/// tree any more.
pub proof fn law_tree_end_is_final(
    p: Platform,
    root: Seq<char>,
    expected_dev: Option<u64>,
    events: Seq<TreeEvent>,
    m: nat,
    n: nat,
)
    requires
        m <= n < events.len(),
        tree_phase(p, root, expected_dev, events, m) is Finished,
    ensures
        tree_phase(p, root, expected_dev, events, n) == tree_phase(
            p,
            root,
            expected_dev,
            events,
            m,
        ),
        tree_deed(p, root, expected_dev, events, n) == TreeDeed::Stop,
    decreases n,
{
    if m < n {
        law_tree_end_is_final(p, root, expected_dev, events, m, (n - 1) as nat);
    }
}

/// A tree's removal ends at the first entry that lies on another device than
/// its root: that entry is left in place, and so is everything that the walk
/// has not come by yet, the root included.
pub proof fn law_tree_stays_on_its_device(
    p: Platform,
    root: Seq<char>,
    expected_dev: Option<u64>,
    events: Seq<TreeEvent>,
    m: nat,
    n: nat,
    device: Option<u64>,
    path: PathBuf,
    stat: WalkedStat,
)
    requires
        m < n < events.len(),
        tree_phase(p, root, expected_dev, events, m) == TreePhase::Walking(device),
        events[m as int] == TreeEvent::Walked(WalkedEntry::Found { path, stat: Ok(stat) }),
        !same_location(p, path@, root),
        off_limits(stat.meta.device, device),
    ensures
        tree_deed(p, root, expected_dev, events, m) == TreeDeed::Stop,
        tree_phase(p, root, expected_dev, events, n) == TreePhase::Finished(
            Err(crossing_message(path@)),
        ),
        tree_deed(p, root, expected_dev, events, n) == TreeDeed::Stop,
{
    assert(tree_phase(p, root, expected_dev, events, m + 1) == TreePhase::Finished(
        Err(crossing_message(path@)),
    ));
    law_tree_end_is_final(p, root, expected_dev, events, m + 1, n);
}

/// The root of a tree goes last: its removal is only asked for when the walk
/// has come to its end without anything having gone wrong.
pub proof fn law_tree_root_goes_last(
    p: Platform,
    root: Seq<char>,
    expected_dev: Option<u64>,
    events: Seq<TreeEvent>,
    n: nat,
)
    requires
        n < events.len(),
        tree_deed(p, root, expected_dev, events, n) == TreeDeed::RemoveDir(root),
    ensures
        events[n as int] is WalkEnded,
        forall|m: nat| m <= n ==> !(#[trigger] tree_phase(p, root, expected_dev, events, m) is Finished),
{
    assert forall|m: nat| m <= n implies !(#[trigger] tree_phase(
        p,
        root,
        expected_dev,
        events,
        m,
    ) is Finished) by {
        if tree_phase(p, root, expected_dev, events, m) is Finished {
            law_tree_end_is_final(p, root, expected_dev, events, m, n);
        }
    }
}

/// Every outcome of a plan that was carried out is counted once: as freed or
/// as failed. A single failure shows in the count.
pub proof fn law_outcomes_counted(
    items: Seq<CleanItem>,
    outcomes: Seq<Result<CleanItemStatus, String>>,
    n: nat,
)
    ensures
        freed_count(outcomes, n) <= n,
        (forall|i: int| 0 <= i < n ==> (#[trigger] outcomes[i]) is Ok) ==> freed_count(outcomes, n)
            == n,
        (exists|i: int| 0 <= i < n && (#[trigger] outcomes[i]) is Err) ==> freed_count(outcomes, n)
            < n,
        (forall|i: int| 0 <= i < n ==> (#[trigger] outcomes[i]) is Err) ==> freed_count(outcomes, n)
            == 0 && freed_bytes(items, outcomes, n) == 0,
    decreases n,
{
    if n > 0 {
        law_outcomes_counted(items, outcomes, (n - 1) as nat);
    }
}

/// With the trash asked for, everything that is no link is handed to the
/// trash, files and directories alike, and nothing is unlinked; without it,
/// nothing ever goes to the trash. Links never do.
pub proof fn law_trash_takes_all_but_links(
    jail: JailContext,
    path: Seq<char>,
    is_dir: bool,
    use_trash: bool,
    one_file_system: bool,
    stat: ItemStat,
)
    ensures
        removal(jail, path, is_dir, use_trash, one_file_system, Ok(stat)) matches Ok(action) ==> {
            &&& use_trash && stat.kind != EntryKind::Symlink ==> action == RemovalAction::Trash
            &&& action == RemovalAction::Trash ==> use_trash && stat.kind != EntryKind::Symlink
        },
{
}

/// A whole tree is removed only where a directory was planned and a directory
/// is found, and then it is: on one device where that is asked for. What was
/// planned as anything else goes by itself, a directory only if it is empty.
pub proof fn law_trees_only_where_planned(
    jail: JailContext,
    path: Seq<char>,
    is_dir: bool,
    one_file_system: bool,
    stat: ItemStat,
)
    requires
        stat.kind != EntryKind::Symlink,
    ensures
        removal(jail, path, is_dir, false, one_file_system, Ok(stat)) matches Ok(action) ==> {
            &&& stat.kind == EntryKind::Directory && is_dir && one_file_system ==> action
                == RemovalAction::RemoveTreeOneDevice
            &&& stat.kind == EntryKind::Directory && is_dir && !one_file_system ==> action
                == RemovalAction::RemoveTree
            &&& stat.kind == EntryKind::Directory && !is_dir ==> action == RemovalAction::RemoveDir
            &&& stat.kind != EntryKind::Directory ==> action == RemovalAction::RemoveFile
        },
{
}

/// A link goes by itself: as a file, or on Windows as a directory where it
/// carries that attribute.
pub proof fn law_link_removal(
    jail: JailContext,
    path: Seq<char>,
    is_dir: bool,
    use_trash: bool,
    one_file_system: bool,
    stat: ItemStat,
)
    requires
        stat.kind == EntryKind::Symlink,
    ensures
        removal(jail, path, is_dir, use_trash, one_file_system, Ok(stat)) matches Ok(action)
            ==> action == (if jail.platform == Platform::Windows && stat.directory_link {
            RemovalAction::RemoveDir
        } else {
            RemovalAction::RemoveFile
        }),
{
}

/// An item is removed exactly when it can be looked at and the jail allows the
/// place that the removal touches: a link's own, anything else's real one.
pub proof fn law_removal_decided_by_jail(
    jail: JailContext,
    path: Seq<char>,
    is_dir: bool,
    use_trash: bool,
    one_file_system: bool,
    stat: Result<ItemStat, IoError>,
)
    ensures
        stat is Err ==> removal(jail, path, is_dir, use_trash, one_file_system, stat) is Err,
        stat matches Ok(found) ==> {
            let out = removal(jail, path, is_dir, use_trash, one_file_system, stat);
            if found.kind == EntryKind::Symlink {
                out is Ok <==> jail.verdict(
                    lexical(jail.platform, path, spelling(jail.current_dir)),
                ) is None
            } else {
                out is Ok <==> jail.verdict(jail.judged_at(path, spelling(found.canonical))) is None
            }
        },
{
}

/// One removal more that succeeds adds the bytes of its item, and one to the
/// count, whatever came of the others.
pub proof fn law_one_more_freed(
    items: Seq<CleanItem>,
    a: Seq<Result<CleanItemStatus, String>>,
    b: Seq<Result<CleanItemStatus, String>>,
    n: nat,
    i: int,
)
    requires
        0 <= i < n <= items.len(),
        n <= a.len(),
        n <= b.len(),
        a[i] is Err,
        b[i] is Ok,
        forall|j: int| 0 <= j < n && j != i ==> (#[trigger] a[j]) is Ok == b[j] is Ok,
    ensures
        freed_bytes(items, b, n) == freed_bytes(items, a, n) + items[i].size,
        freed_count(b, n) == freed_count(a, n) + 1,
    decreases n,
{
    let m = (n - 1) as nat;
    if i < m {
        law_one_more_freed(items, a, b, m, i);
        assert(a[m as int] is Ok == b[m as int] is Ok);
    } else {
        lemma_freed_same(items, a, b, m);
    }
}

proof fn lemma_freed_same(
    items: Seq<CleanItem>,
    a: Seq<Result<CleanItemStatus, String>>,
    b: Seq<Result<CleanItemStatus, String>>,
    n: nat,
)
    requires
        n <= a.len(),
        n <= b.len(),
        forall|j: int| 0 <= j < n ==> (#[trigger] a[j]) is Ok == b[j] is Ok,
    ensures
        freed_bytes(items, b, n) == freed_bytes(items, a, n),
        freed_count(b, n) == freed_count(a, n),
    decreases n,
{
    if n > 0 {
        assert(a[n - 1] is Ok == b[n - 1] is Ok);
        lemma_freed_same(items, a, b, (n - 1) as nat);
    }
}

/// Where every removal succeeds, the bytes of all items are freed.
pub proof fn law_all_freed(
    items: Seq<CleanItem>,
    outcomes: Seq<Result<CleanItemStatus, String>>,
)
    requires
        outcomes.len() == items.len(),
        forall|i: int| 0 <= i < outcomes.len() ==> (#[trigger] outcomes[i]) is Ok,
    ensures
        freed_bytes(items, outcomes, items.len()) == bytes_of(items),
{
    lemma_all_freed(items, outcomes, items.len());
    assert(items.take(items.len() as int) =~= items);
}

proof fn lemma_all_freed(
    items: Seq<CleanItem>,
    outcomes: Seq<Result<CleanItemStatus, String>>,
    n: nat,
)
    requires
        n <= items.len() == outcomes.len(),
        forall|i: int| 0 <= i < outcomes.len() ==> (#[trigger] outcomes[i]) is Ok,
    ensures
        freed_bytes(items, outcomes, n) == bytes_of(items.take(n as int)),
    decreases n,
{
    if n > 0 {
        lemma_all_freed(items, outcomes, (n - 1) as nat);
        assert(outcomes[n - 1] is Ok);
        assert(items.take(n as int).drop_last() =~= items.take(n - 1));
    } else {
        assert(items.take(0) =~= Seq::empty());
    }
}

/// What is recorded tells what happened: a success as it is, a failure with
/// its reason.
pub proof fn law_recorded(status: CleanItemStatus, reason: String)
    ensures
        recorded(Ok(status)) == status,
        recorded(Err(reason)) == CleanItemStatus::Failed(reason),
{
}

/// The removal of a tree stays on the device of its root, which must be the
/// expected one where both are known.
pub proof fn law_tree_begins_on_its_device(
    p: Platform,
    root: Seq<char>,
    expected_dev: Option<u64>,
    meta: Metadata,
)
    ensures
        ({
            let next = tree_next(
                p,
                root,
                expected_dev,
                TreePhase::Start,
                TreeEvent::Begun(Ok(meta)),
            );
            if expected_dev is Some && meta.device is Some && expected_dev->0 != meta.device->0 {
                next.0 is Finished && next.0->Finished_0 is Err && next.1 == TreeDeed::Stop
            } else {
                next == (TreePhase::Walking(meta.device), TreeDeed::Walk)
            }
        }),
{
}

/// An entry of a tree that is read, is not the root and does not lie on
/// another device than the tree is removed, as what it is; one on another
/// device, or one that cannot be read, ends the removal.
pub proof fn law_tree_entry_removed(
    p: Platform,
    root: Seq<char>,
    expected_dev: Option<u64>,
    device: Option<u64>,
    path: PathBuf,
    stat: Result<WalkedStat, IoError>,
)
    requires
        !same_location(p, path@, root),
    ensures
        ({
            let event = TreeEvent::Walked(WalkedEntry::Found { path, stat });
            let next = tree_next(p, root, expected_dev, TreePhase::Walking(device), event);
            match stat {
                Ok(found) => if found.meta.device is Some && found.meta.device != device {
                    next.0 is Finished && next.0->Finished_0 is Err && next.1 == TreeDeed::Stop
                } else if found.is_dir {
                    next == (TreePhase::Removing(device, path@), TreeDeed::RemoveDir(path@))
                } else {
                    next == (TreePhase::Removing(device, path@), TreeDeed::RemoveFile(path@))
                },
                Err(_) => next.0 is Finished && next.0->Finished_0 is Err && next.1
                    == TreeDeed::Stop,
            }
        }),
{
}

/// A tree whose removal ended well was walked to its end, and its root was
/// removed; an entry whose removal fails ends it badly.
pub proof fn law_tree_ends(
    p: Platform,
    root: Seq<char>,
    expected_dev: Option<u64>,
    phase: TreePhase,
    event: TreeEvent,
    device: Option<u64>,
    path: Seq<char>,
    error: IoError,
)
    ensures
        !(phase is Finished) && tree_next(p, root, expected_dev, phase, event).0
            == TreePhase::Finished(Ok(())) ==> phase is RemovingRoot && event is Tried
            && event->Tried_0 is Ok,
        !(phase is RemovingRoot) && tree_next(p, root, expected_dev, phase, event).0 is RemovingRoot
            ==> phase is Walking && event is WalkEnded,
        tree_next(
            p,
            root,
            expected_dev,
            TreePhase::Removing(device, path),
            TreeEvent::Tried(Err(error)),
        ).0 matches TreePhase::Finished(Err(_)),
        tree_next(
            p,
            root,
            expected_dev,
            TreePhase::RemovingRoot,
            TreeEvent::Tried(Err(error)),
        ).0 matches TreePhase::Finished(Err(_)),
{
}

/// How the removal of a tree goes on while nothing goes wrong: the root is
/// passed over while the walk lasts, every removed entry is followed by the
/// next, and the root itself is removed at the end.
pub proof fn law_tree_goes_on(
    p: Platform,
    root: Seq<char>,
    expected_dev: Option<u64>,
    device: Option<u64>,
    path: PathBuf,
    stat: Result<WalkedStat, IoError>,
    error: IoError,
    text: String,
)
    ensures
        same_location(p, path@, root) ==> tree_next(
            p,
            root,
            expected_dev,
            TreePhase::Walking(device),
            TreeEvent::Walked(WalkedEntry::Found { path, stat }),
        ) == (TreePhase::Walking(device), TreeDeed::Walk),
        tree_next(
            p,
            root,
            expected_dev,
            TreePhase::Removing(device, path@),
            TreeEvent::Tried(Ok(())),
        ) == (TreePhase::Walking(device), TreeDeed::Walk),
        tree_next(p, root, expected_dev, TreePhase::Walking(device), TreeEvent::WalkEnded) == (
            TreePhase::RemovingRoot,
            TreeDeed::RemoveDir(root),
        ),
        tree_next(
            p,
            root,
            expected_dev,
            TreePhase::RemovingRoot,
            TreeEvent::Tried(Ok(())),
        ) == (TreePhase::Finished(Ok(())), TreeDeed::Stop),
        tree_next(p, root, expected_dev, TreePhase::Start, TreeEvent::Begun(Err(error))).0 matches
            TreePhase::Finished(Err(_)),
        tree_next(
            p,
            root,
            expected_dev,
            TreePhase::Walking(device),
            TreeEvent::Walked(WalkedEntry::Failed(text)),
        ).0 matches TreePhase::Finished(Err(_)),
{
}

} // verus!
