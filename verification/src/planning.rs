//! Planning a cleanup: which items a run would remove.
//!
//! Planning never changes anything. It works on a reading of the file system:
//! every root that may be cleaned, with the entries below it.

use crate::cli::CleanArgs;
use crate::errors::{CleanError, DiskPulseError};
use crate::jail::{validate_path_safety, JailContext};
use crate::models::{breaks_down, bytes_of, CleanItem, CleanPlan, EntryKind};
use crate::path::PathBuf;
use crate::registry::{
    get_registered_targets, registered, spelling, target_values, CleanTargetDef, Environment,
    Target,
};
use crate::text::same_text;
use crate::util::{
    duration_value, parse_duration, parse_size, physical_disk_size, size_value, Duration, Metadata,
    Timestamp,
};
use vstd::prelude::*;
use vstd::string::*;

verus! {

// ---------------------------------------------------------------------------
// Options
// ---------------------------------------------------------------------------
/// Tunables for a cleanup run, derived from [`CleanArgs`].
#[derive(Debug)]
pub struct CleanOptions {
    /// Empty expands to every default target; `"all"` also pulls in opt-in
    /// targets.
    pub targets: Vec<String>,
    pub apply: bool,
    pub yes: bool,
    pub use_trash: bool,
    pub older_than: Option<Duration>,
    pub min_size: Option<u64>,
    pub custom_path: Option<PathBuf>,
    pub one_file_system: bool,
}

impl Clone for CleanOptions {
    fn clone(&self) -> (out: Self)
        ensures
            strings(out.targets@) == strings(self.targets@),
            out.apply == self.apply,
            out.yes == self.yes,
            out.use_trash == self.use_trash,
            out.older_than == self.older_than,
            out.min_size == self.min_size,
            out.custom_path == self.custom_path,
            out.one_file_system == self.one_file_system,
    {
        let targets = self.targets.clone();
        assert(strings(targets@) =~= strings(self.targets@));
        CleanOptions {
            targets,
            apply: self.apply,
            yes: self.yes,
            use_trash: self.use_trash,
            older_than: self.older_than,
            min_size: self.min_size,
            custom_path: self.custom_path.clone(),
            one_file_system: self.one_file_system,
        }
    }
}

impl Default for CleanOptions {
    fn default() -> (out: Self)
        ensures
            out.targets@.len() == 0,
            !out.apply,
            !out.yes,
            !out.use_trash,
            out.older_than is None,
            out.min_size is None,
            out.custom_path is None,
            !out.one_file_system,
    {
        CleanOptions {
            targets: Vec::new(),
            apply: false,
            yes: false,
            use_trash: false,
            older_than: None,
            min_size: None,
            custom_path: None,
            one_file_system: false,
        }
    }
}

/// The bytes that an optional size text stands for, if it stands for any.
pub open spec fn size_option(raw: Option<String>) -> Option<nat> {
    match raw {
        Some(raw) => match size_value(raw@) {
            Ok(bytes) => Some(bytes),
            Err(_) => None,
        },
        None => None,
    }
}

/// The seconds that an optional duration text stands for, if any.
pub open spec fn age_option(raw: Option<String>) -> Option<nat> {
    match raw {
        Some(raw) => match duration_value(raw@) {
            Ok(seconds) => Some(seconds),
            Err(_) => None,
        },
        None => None,
    }
}

pub(crate) fn parse_size_option(raw: &Option<String>) -> (out: Option<u64>)
    ensures
        match out {
            Some(bytes) => size_option(*raw) == Some(bytes as nat),
            None => size_option(*raw) is None,
        },
{
    match raw {
        Some(raw) => match parse_size(raw.as_str()) {
            Ok(bytes) => Some(bytes),
            Err(_) => None,
        },
        None => None,
    }
}

impl From<&CleanArgs> for CleanOptions {
    fn from(args: &CleanArgs) -> (out: Self)
        ensures
            out.targets@ == args.targets@,
            out.apply == args.apply,
            out.yes == args.yes,
            out.use_trash == args.trash,
            match out.older_than {
                Some(age) => age.seconds >= 0 && age_option(args.older_than) == Some(
                    age.seconds as nat,
                ),
                None => age_option(args.older_than) is None,
            },
            match out.min_size {
                Some(bytes) => size_option(args.min_size) == Some(bytes as nat),
                None => size_option(args.min_size) is None,
            },
            out.custom_path == args.path,
            out.one_file_system == args.one_file_system,
    {
        let targets = args.targets.clone();
        assert(targets@ =~= args.targets@);
        let older_than = match &args.older_than {
            Some(raw) => match parse_duration(raw.as_str()) {
                Ok(age) => Some(age),
                Err(_) => None,
            },
            None => None,
        };
        CleanOptions {
            targets,
            apply: args.apply,
            yes: args.yes,
            use_trash: args.trash,
            older_than,
            min_size: parse_size_option(&args.min_size),
            custom_path: args.path.clone(),
            one_file_system: args.one_file_system,
        }
    }
}

impl vstd::std_specs::convert::FromSpecImpl<&CleanArgs> for CleanOptions {
    open spec fn obeys_from_spec() -> bool {
        false
    }

    open spec fn from_spec(args: &CleanArgs) -> Self {
        arbitrary()
    }
}

// ---------------------------------------------------------------------------
// Choosing targets
// ---------------------------------------------------------------------------
/// The first target called `id`.
pub open spec fn first_named(registry: Seq<Target>, id: Seq<char>) -> Option<Target>
    decreases registry.len(),
{
    if registry.len() == 0 {
        None
    } else {
        match first_named(registry.drop_last(), id) {
            Some(target) => Some(target),
            None => if registry.last().id == id {
                Some(registry.last())
            } else {
                None
            },
        }
    }
}

/// Whether one of `list` is called `id`.
pub open spec fn names(list: Seq<Target>, id: Seq<char>) -> bool {
    first_named(list, id) is Some
}

/// The targets called by the names `requested`, each once, in the order in
/// which they are asked for; or the first name that nothing is called by.
pub open spec fn picked(requested: Seq<Seq<char>>, registry: Seq<Target>) -> Result<
    Seq<Target>,
    Seq<char>,
>
    decreases requested.len(),
{
    if requested.len() == 0 {
        Ok(Seq::empty())
    } else {
        let raw = requested.last();
        match picked(requested.drop_last(), registry) {
            Err(unknown) => Err(unknown),
            Ok(list) => match first_named(registry, raw) {
                None => Err(raw),
                Some(target) => if names(list, target.id) {
                    Ok(list)
                } else {
                    Ok(list.push(target))
                },
            },
        }
    }
}

/// The targets that run by default.
pub open spec fn defaults(registry: Seq<Target>) -> Seq<Target>
    decreases registry.len(),
{
    if registry.len() == 0 {
        Seq::empty()
    } else if registry.last().enabled_by_default {
        defaults(registry.drop_last()).push(registry.last())
    } else {
        defaults(registry.drop_last())
    }
}

/// The texts of a list of strings.
pub open spec fn strings(list: Seq<String>) -> Seq<Seq<char>> {
    list.map_values(|s: String| s@)
}

/// The targets that a request selects: the defaults when it is empty,
/// everything when it holds `all`, and the named ones otherwise.
pub open spec fn selection(requested: Seq<Seq<char>>, registry: Seq<Target>) -> Result<
    Seq<Target>,
    Seq<char>,
> {
    if requested.len() == 0 {
        Ok(defaults(registry))
    } else if requested.contains("all"@) {
        Ok(registry)
    } else {
        picked(requested, registry)
    }
}

proof fn lemma_first_named_prefix(list: Seq<Target>, id: Seq<char>, i: int)
    requires
        0 <= i <= list.len(),
        first_named(list.take(i), id) is Some,
    ensures
        first_named(list, id) == first_named(list.take(i), id),
    decreases list.len() - i,
{
    if i < list.len() {
        assert(list.take(i + 1).drop_last() =~= list.take(i));
        lemma_first_named_prefix(list, id, i + 1);
    } else {
        assert(list.take(i) =~= list);
    }
}

/// Position of the first target called `id`.
fn find_named(list: &Vec<CleanTargetDef>, id: &str) -> (found: Option<usize>)
    ensures
        match found {
            Some(i) => i < list@.len() && first_named(target_values(list@), id@) == Some(
                list@[i as int]@,
            ),
            None => first_named(target_values(list@), id@) is None,
        },
{
    let ghost all = target_values(list@);
    let mut i: usize = 0;
    assert(all.take(0) =~= Seq::empty());
    while i < list.len()
        invariant
            i <= list@.len(),
            all == target_values(list@),
            first_named(all.take(i as int), id@) is None,
        decreases list.len() - i,
    {
        proof {
            assert(all.take(i + 1).drop_last() =~= all.take(i as int));
            assert(all.take(i + 1).last() == list@[i as int]@);
        }
        if same_text(list[i].id, id) {
            proof {
                lemma_first_named_prefix(all, id@, i + 1);
            }
            return Some(i);
        }
        i += 1;
    }
    assert(all.take(all.len() as int) =~= all);
    None
}

/// The targets among `list` that run by default.
pub fn default_targets(list: &Vec<CleanTargetDef>) -> (out: Vec<CleanTargetDef>)
    ensures
        target_values(out@) == defaults(target_values(list@)),
{
    let ghost all = target_values(list@);
    let mut out: Vec<CleanTargetDef> = Vec::new();
    let mut i: usize = 0;
    assert(all.take(0) =~= Seq::empty());
    assert(target_values(out@) =~= Seq::empty());
    while i < list.len()
        invariant
            i <= list@.len(),
            all == target_values(list@),
            target_values(out@) == defaults(all.take(i as int)),
        decreases list.len() - i,
    {
        let ghost before = target_values(out@);
        proof {
            assert(all.take(i + 1).drop_last() =~= all.take(i as int));
            assert(all.take(i + 1).last() == list@[i as int]@);
        }
        if list[i].enabled_by_default {
            out.push(list[i].clone());
            assert(target_values(out@) =~= before.push(list@[i as int]@));
        }
        i += 1;
    }
    assert(all.take(all.len() as int) =~= all);
    out
}

/// Whether one of `requested` is the word `all`.
fn asks_for_all(requested: &Vec<String>) -> (yes: bool)
    ensures
        yes == strings(requested@).contains("all"@),
{
    let mut i: usize = 0;
    while i < requested.len()
        invariant
            i <= requested@.len(),
            forall|j: int| 0 <= j < i ==> #[trigger] strings(requested@)[j] != "all"@,
        decreases requested.len() - i,
    {
        if same_text(requested[i].as_str(), "all") {
            assert(strings(requested@)[i as int] == "all"@);
            return true;
        }
        i += 1;
    }
    false
}

/// Expand the requested target list against the registry: empty selects the
/// defaults only, a list with `all` everything, any other exactly the named
/// targets.
pub fn resolve_targets(requested: &Vec<String>, env: &Environment) -> (out: Result<
    Vec<CleanTargetDef>,
    DiskPulseError,
>)
    ensures
        match out {
            Ok(list) => selection(strings(requested@), registered(*env)) == Ok::<
                Seq<Target>,
                Seq<char>,
            >(target_values(list@)),
            Err(DiskPulseError::Clean(CleanError::TargetNotFound(raw))) => selection(
                strings(requested@),
                registered(*env),
            ) == Err::<Seq<Target>, Seq<char>>(raw@),
            Err(_) => false,
        },
{
    let registry = get_registered_targets(env);
    if requested.len() == 0 {
        return Ok(default_targets(&registry));
    }
    if asks_for_all(requested) {
        return Ok(registry);
    }
    let ghost all = strings(requested@);
    let ghost known = registered(*env);
    let mut selected: Vec<CleanTargetDef> = Vec::new();
    let mut i: usize = 0;
    assert(all.take(0) =~= Seq::empty());
    assert(target_values(selected@) =~= Seq::empty());
    while i < requested.len()
        invariant
            i <= requested@.len(),
            all == strings(requested@),
            all.len() > 0,
            !all.contains("all"@),
            known == target_values(registry@),
            known == registered(*env),
            picked(all.take(i as int), known) == Ok::<Seq<Target>, Seq<char>>(
                target_values(selected@),
            ),
        decreases requested.len() - i,
    {
        let ghost before = target_values(selected@);
        proof {
            assert(all.take(i + 1).drop_last() =~= all.take(i as int));
            assert(all.take(i + 1).last() == requested@[i as int]@);
        }
        match find_named(&registry, requested[i].as_str()) {
            Some(k) => {
                if find_named(&selected, registry[k].id).is_none() {
                    selected.push(registry[k].clone());
                    assert(target_values(selected@) =~= before.push(registry@[k as int]@));
                }
            },
            None => {
                proof {
                    lemma_picked_unknown(all, known, i + 1);
                }
                return Err(
                    DiskPulseError::Clean(CleanError::TargetNotFound(requested[i].clone())),
                );
            },
        }
        i += 1;
    }
    assert(all.take(all.len() as int) =~= all);
    Ok(selected)
}

/// The first unknown name decides.
proof fn lemma_picked_unknown(requested: Seq<Seq<char>>, registry: Seq<Target>, i: int)
    requires
        0 <= i <= requested.len(),
        picked(requested.take(i), registry) is Err,
    ensures
        picked(requested, registry) == picked(requested.take(i), registry),
    decreases requested.len() - i,
{
    if i < requested.len() {
        assert(requested.take(i + 1).drop_last() =~= requested.take(i));
        lemma_picked_unknown(requested, registry, i + 1);
    } else {
        assert(requested.take(i) =~= requested);
    }
}

// ---------------------------------------------------------------------------
// Readings of the file system
// ---------------------------------------------------------------------------
/// One file-system entry as it was read, without following links.
#[derive(Debug)]
pub struct FsEntry {
    pub path: PathBuf,
    /// What the entry is, where that could be told.
    pub kind: Option<EntryKind>,
    /// The metadata of the entry itself, where it could be read.
    pub meta: Option<Metadata>,
    pub modified: Option<Timestamp>,
    /// Where the entry really lies, where the file system could tell.
    pub canonical: Option<PathBuf>,
    /// The entries of a directory that could be read.
    pub children: Vec<FsEntry>,
}

/// A root as it was found.
#[derive(Debug)]
pub struct RootProbe {
    /// Whether something is there, links followed.
    pub exists: bool,
    /// Where the root really lies, where the file system could tell.
    pub canonical: Option<PathBuf>,
    pub entry: Option<FsEntry>,
}

/// Whether two device identifiers are known to differ. Unknown identifiers
/// mean that no boundary can be proved.
pub open spec fn foreign(a: Option<u64>, b: Option<u64>) -> bool {
    a is Some && b is Some && a != b
}

/// Whether `meta` is known to lie on another device than `parent`.
pub fn crosses_devices(meta: &Metadata, parent: Option<u64>) -> (yes: bool)
    ensures
        yes == foreign(meta.device, parent),
        yes == (meta.device is Some && parent is Some && meta.device->0 != parent->0),
{
    match (crate::util::device_id(meta), parent) {
        (Some(a), Some(b)) => a != b,
        _ => false,
    }
}

impl FsEntry {
    /// Whether this is a directory, and not a link to one.
    pub open spec fn directory(self) -> bool {
        self.kind == Some(EntryKind::Directory)
    }

    /// The device that this entry lies on, where known.
    pub open spec fn device(self) -> Option<u64> {
        match self.meta {
            Some(meta) => meta.device,
            None => None,
        }
    }

    /// Bytes that this entry takes inside a directory: a link takes none, nor
    /// does what is left out when the device must not change.
    pub open spec fn bytes(self, one_file_system: bool, root_dev: Option<u64>) -> nat
        decreases self, self.children@.len() + 1,
    {
        if self.kind is None || self.kind == Some(EntryKind::Symlink) {
            0
        } else if one_file_system && (self.meta is None || foreign(self.device(), root_dev)) {
            0
        } else if self.directory() {
            self.bytes_of_first(self.children@.len(), one_file_system, root_dev)
        } else {
            match self.meta {
                Some(meta) => meta.physical(),
                None => 0,
            }
        }
    }

    /// Bytes that the first `n` entries of this directory take.
    pub open spec fn bytes_of_first(
        self,
        n: nat,
        one_file_system: bool,
        root_dev: Option<u64>,
    ) -> nat
        decreases self, n,
    {
        if n == 0 || n > self.children@.len() {
            0
        } else {
            self.bytes_of_first((n - 1) as nat, one_file_system, root_dev)
                + self.children@[n - 1].bytes(one_file_system, root_dev)
        }
    }

    /// Allocated bytes of all regular files below this directory.
    pub open spec fn tree_bytes(self, one_file_system: bool, root_dev: Option<u64>) -> nat {
        self.bytes_of_first(self.children@.len(), one_file_system, root_dev)
    }
}

/// Allocated bytes, where they fit in 64 bits.
fn allocated(meta: &Metadata) -> (out: Option<u64>)
    ensures
        match out {
            Some(bytes) => bytes == meta.physical(),
            None => meta.physical() > u64::MAX,
        },
{
    if let Some(blocks) = meta.blocks {
        if blocks > u64::MAX / 512 {
            return None;
        }
    }
    Some(physical_disk_size(meta))
}

fn weigh(entry: &FsEntry, one_file_system: bool, root_dev: Option<u64>) -> (out: Option<u64>)
    ensures
        match out {
            Some(bytes) => bytes == entry.bytes(one_file_system, root_dev),
            None => entry.bytes(one_file_system, root_dev) > u64::MAX,
        },
    decreases *entry, 1nat,
{
    let kind = match entry.kind {
        Some(kind) => kind,
        None => {
            return Some(0);
        },
    };
    if kind == EntryKind::Symlink {
        return Some(0);
    }
    if one_file_system {
        match &entry.meta {
            Some(meta) => if crosses_devices(meta, root_dev) {
                return Some(0);
            },
            None => {
                return Some(0);
            },
        }
    }
    if kind == EntryKind::Directory {
        tree_size(entry, one_file_system, root_dev)
    } else {
        match &entry.meta {
            Some(meta) => allocated(meta),
            None => Some(0),
        }
    }
}

/// Recursively sum allocated bytes of all regular files under `dir`, where
/// the sum fits in 64 bits.
///
/// Symlinks are strictly excluded: they contribute zero bytes and are never
/// descended into.
pub fn tree_size(dir: &FsEntry, one_file_system: bool, root_dev: Option<u64>) -> (out: Option<u64>)
    ensures
        match out {
            Some(bytes) => bytes == dir.tree_bytes(one_file_system, root_dev),
            None => dir.tree_bytes(one_file_system, root_dev) > u64::MAX,
        },
    decreases *dir, 0nat,
{
    let mut total: u64 = 0;
    let mut i: usize = 0;
    while i < dir.children.len()
        invariant
            i <= dir.children@.len(),
            total == dir.bytes_of_first(i as nat, one_file_system, root_dev),
        decreases dir.children.len() - i,
    {
        assert(decreases_to!(*dir => dir.children@[i as int]));
        proof {
            lemma_bytes_monotone(*dir, one_file_system, root_dev, (i + 1) as nat);
        }
        let next = match weigh(&dir.children[i], one_file_system, root_dev) {
            Some(bytes) => bytes,
            None => {
                return None;
            },
        };
        total = match total.checked_add(next) {
            Some(sum) => sum,
            None => {
                return None;
            },
        };
        i += 1;
    }
    Some(total)
}

proof fn lemma_bytes_monotone(dir: FsEntry, one_file_system: bool, root_dev: Option<u64>, n: nat)
    requires
        n <= dir.children@.len(),
    ensures
        dir.bytes_of_first(n, one_file_system, root_dev) <= dir.tree_bytes(
            one_file_system,
            root_dev,
        ),
    decreases dir.children@.len() - n,
{
    if n < dir.children@.len() {
        lemma_bytes_monotone(dir, one_file_system, root_dev, n + 1);
    }
}

// ---------------------------------------------------------------------------
// Candidates
// ---------------------------------------------------------------------------
/// Something that could be removed as one unit.
pub struct Candidate {
    pub path: Seq<char>,
    pub canonical: Option<Seq<char>>,
    pub size: nat,
    pub is_dir: bool,
    pub modified: Option<Timestamp>,
}

/// Which entries count at all: those last modified at or before the cutoff,
/// if there is one, on one device if that is asked for.
#[derive(Debug, Clone, Copy)]
pub struct Window {
    pub cutoff: Option<Timestamp>,
    pub one_file_system: bool,
}

impl FsEntry {
    /// The units that this entry yields, being found in a directory on
    /// device `parent_dev`.
    ///
    /// Under an age window a directory is never a unit: its modification time
    /// cannot vouch for nested content, so each of its entries is judged by
    /// itself. Otherwise a directory is one unit, measured with all it holds.
    /// A link is a unit of its own, measured by itself.
    pub open spec fn units(self, w: Window, parent_dev: Option<u64>) -> Seq<Candidate>
        decreases self, self.children@.len() + 1,
    {
        match self.meta {
            None => Seq::empty(),
            Some(meta) => if self.directory() && w.one_file_system && foreign(
                meta.device,
                parent_dev,
            ) {
                Seq::empty()
            } else if self.directory() && w.cutoff is Some {
                self.units_of_first(self.children@.len(), w)
            } else if w.cutoff is Some && !(self.modified is Some && self.modified->0.at_or_before(
                w.cutoff->0,
            )) {
                Seq::empty()
            } else {
                seq![
                    Candidate {
                        path: self.path@,
                        canonical: spelling(self.canonical),
                        size: if self.directory() {
                            self.tree_bytes(w.one_file_system, parent_dev)
                        } else {
                            meta.physical()
                        },
                        is_dir: self.directory(),
                        modified: self.modified,
                    },
                ]
            },
        }
    }

    /// The units that the first `n` entries of this directory yield.
    pub open spec fn units_of_first(self, n: nat, w: Window) -> Seq<Candidate>
        decreases self, n,
    {
        if n == 0 || n > self.children@.len() {
            Seq::empty()
        } else {
            self.units_of_first((n - 1) as nat, w) + self.children@[n - 1].units(w, self.device())
        }
    }

    /// The units that this entry yields as a root: its entries if it is a
    /// directory, itself otherwise.
    pub open spec fn root_units(self, w: Window) -> Seq<Candidate> {
        if self.meta is None {
            Seq::empty()
        } else if self.directory() {
            self.units_of_first(self.children@.len(), w)
        } else {
            self.units(w, None)
        }
    }
}

/// Every unit's size fits in 64 bits.
pub open spec fn sizes_fit(units: Seq<Candidate>) -> bool {
    forall|i: int| 0 <= i < units.len() ==> (#[trigger] units[i]).size <= u64::MAX
}

/// The mathematical value of a [`CleanItem`].
pub struct Item {
    pub path: Seq<char>,
    pub size: nat,
    pub target_id: Seq<char>,
    pub target_name: Seq<char>,
    pub is_dir: bool,
    pub modified: Option<Timestamp>,
}

impl View for CleanItem {
    type V = Item;

    open spec fn view(&self) -> Item {
        Item {
            path: self.path@,
            size: self.size as nat,
            target_id: self.target_id@,
            target_name: self.target_name@,
            is_dir: self.is_dir,
            modified: self.modified,
        }
    }
}

/// The values of a list of items.
pub open spec fn item_values(list: Seq<CleanItem>) -> Seq<Item> {
    list.map_values(|item: CleanItem| item@)
}

/// The target that items are listed under.
pub struct Owner {
    pub id: Seq<char>,
    pub name: Seq<char>,
}

/// Whether a unit may be listed: large enough, and in a location that the
/// jail allows.
pub open spec fn listable(jail: JailContext, min_size: Option<u64>, unit: Candidate) -> bool {
    &&& min_size matches Some(bytes) ==> unit.size >= bytes
    &&& jail.verdict(jail.judged_at(unit.path, unit.canonical)) is None
}

/// The items that a list of units makes for one target.
pub open spec fn listed(
    jail: JailContext,
    min_size: Option<u64>,
    owner: Owner,
    units: Seq<Candidate>,
) -> Seq<Item>
    decreases units.len(),
{
    if units.len() == 0 {
        Seq::empty()
    } else {
        let before = listed(jail, min_size, owner, units.drop_last());
        let unit = units.last();
        if listable(jail, min_size, unit) {
            before.push(
                Item {
                    path: unit.path,
                    size: unit.size,
                    target_id: owner.id,
                    target_name: owner.name,
                    is_dir: unit.is_dir,
                    modified: unit.modified,
                },
            )
        } else {
            before
        }
    }
}

proof fn lemma_listed_concat(
    jail: JailContext,
    min_size: Option<u64>,
    owner: Owner,
    a: Seq<Candidate>,
    b: Seq<Candidate>,
)
    ensures
        listed(jail, min_size, owner, a + b) == listed(jail, min_size, owner, a) + listed(
            jail,
            min_size,
            owner,
            b,
        ),
    decreases b.len(),
{
    if b.len() == 0 {
        assert(a + b =~= a);
        assert(listed(jail, min_size, owner, b) =~= Seq::empty());
        assert(listed(jail, min_size, owner, a) + Seq::<Item>::empty() =~= listed(
            jail,
            min_size,
            owner,
            a,
        ));
    } else {
        assert((a + b).drop_last() =~= a + b.drop_last());
        lemma_listed_concat(jail, min_size, owner, a, b.drop_last());
        assert(listed(jail, min_size, owner, a + b) =~= listed(jail, min_size, owner, a) + listed(
            jail,
            min_size,
            owner,
            b,
        ));
    }
}

proof fn lemma_sizes_fit_concat(a: Seq<Candidate>, b: Seq<Candidate>)
    ensures
        sizes_fit(a + b) == (sizes_fit(a) && sizes_fit(b)),
{
    if sizes_fit(a + b) {
        assert forall|i: int| 0 <= i < a.len() implies (#[trigger] a[i]).size <= u64::MAX by {
            assert((a + b)[i] == a[i]);
        }
        assert forall|i: int| 0 <= i < b.len() implies (#[trigger] b[i]).size <= u64::MAX by {
            assert((a + b)[a.len() + i] == b[i]);
        }
    }
}

/// What listing goes by.
struct Listing<'a> {
    jail: &'a JailContext,
    min_size: Option<u64>,
    target_id: &'a str,
    target_name: &'a str,
    window: Window,
}

impl Listing<'_> {
    spec fn owner(&self) -> Owner {
        Owner { id: self.target_id@, name: self.target_name@ }
    }

    spec fn items(&self, units: Seq<Candidate>) -> Seq<Item> {
        listed(*self.jail, self.min_size, self.owner(), units)
    }
}

/// Apply every filter to one candidate and either emit it, descend into it,
/// or discard it. Tells whether every size fits in 64 bits.
fn collect_entry(
    entry: &FsEntry,
    listing: &Listing,
    parent_dev: Option<u64>,
    out: &mut Vec<CleanItem>,
) -> (fits: bool)
    ensures
        fits == sizes_fit(entry.units(listing.window, parent_dev)),
        fits ==> item_values(final(out)@) == item_values(old(out)@) + listing.items(
            entry.units(listing.window, parent_dev),
        ),
    decreases *entry, 1nat,
{
    let ghost units = entry.units(listing.window, parent_dev);
    let ghost before = item_values(out@);
    let w = listing.window;
    proof {
        assert(listing.items(Seq::empty()) =~= Seq::empty());
        assert(before + Seq::<Item>::empty() =~= before);
    }
    let meta = match entry.meta {
        Some(meta) => meta,
        None => {
            return true;
        },
    };
    // Links are units of their own: the link itself gets unlinked, never
    // followed.
    let is_dir = match entry.kind {
        Some(kind) => kind == EntryKind::Directory,
        None => false,
    };
    if is_dir && w.one_file_system && crosses_devices(&meta, parent_dev) {
        return true;
    }
    if is_dir && w.cutoff.is_some() {
        return collect_from_dir(entry, listing, out);
    }
    if let Some(cutoff) = w.cutoff {
        match entry.modified {
            Some(mtime) => if !mtime.is_at_or_before(cutoff) {
                return true;
            },
            None => {
                return true;
            },
        }
    }
    let measured = if is_dir {
        tree_size(entry, w.one_file_system, parent_dev)
    } else {
        allocated(&meta)
    };
    let ghost unit = units[0];
    assert(units =~= seq![unit]);
    assert(units.drop_last() =~= Seq::empty());
    let size = match measured {
        Some(size) => size,
        None => {
            assert(units[0].size > u64::MAX);
            return false;
        },
    };
    assert(unit.size == size);
    if let Some(min_size) = listing.min_size {
        if size < min_size {
            return true;
        }
    }
    if validate_path_safety(listing.jail, &entry.path, &entry.canonical).is_err() {
        return true;
    }
    assert(listable(*listing.jail, listing.min_size, unit));
    let item = CleanItem {
        path: entry.path.clone(),
        size,
        target_id: listing.target_id.to_owned(),
        target_name: listing.target_name.to_owned(),
        is_dir,
        modified: entry.modified,
    };
    let ghost value = item@;
    out.push(item);
    assert(item_values(out@) =~= before.push(value));
    assert(listing.items(units) =~= seq![value]);
    true
}

/// Enumerate one directory level into `out`. Tells whether every size fits in
/// 64 bits.
fn collect_from_dir(dir: &FsEntry, listing: &Listing, out: &mut Vec<CleanItem>) -> (fits: bool)
    ensures
        fits == sizes_fit(dir.units_of_first(dir.children@.len(), listing.window)),
        fits ==> item_values(final(out)@) == item_values(old(out)@) + listing.items(
            dir.units_of_first(dir.children@.len(), listing.window),
        ),
    decreases *dir, 0nat,
{
    let ghost start = item_values(out@);
    let ghost w = listing.window;
    let dev = match &dir.meta {
        Some(meta) => crate::util::device_id(meta),
        None => None,
    };
    let mut i: usize = 0;
    assert(start + listing.items(Seq::empty()) =~= start);
    while i < dir.children.len()
        invariant
            i <= dir.children@.len(),
            w == listing.window,
            dev == dir.device(),
            sizes_fit(dir.units_of_first(i as nat, w)),
            item_values(out@) == start + listing.items(dir.units_of_first(i as nat, w)),
        decreases dir.children.len() - i,
    {
        assert(decreases_to!(*dir => dir.children@[i as int]));
        let ghost done = dir.units_of_first(i as nat, w);
        let ghost next = dir.children@[i as int].units(w, dir.device());
        proof {
            lemma_sizes_fit_concat(done, next);
            lemma_listed_concat(*listing.jail, listing.min_size, listing.owner(), done, next);
            assert(dir.units_of_first((i + 1) as nat, w) == done + next);
            if sizes_fit(dir.units_of_first(dir.children@.len(), w)) {
                lemma_units_prefix_fit(*dir, (i + 1) as nat, w);
            }
        }
        if !collect_entry(&dir.children[i], listing, dev, out) {
            return false;
        }
        assert(item_values(out@) =~= start + listing.items(
            dir.units_of_first((i + 1) as nat, w),
        ));
        i += 1;
    }
    true
}

proof fn lemma_units_prefix_fit(dir: FsEntry, n: nat, w: Window)
    requires
        n <= dir.children@.len(),
        sizes_fit(dir.units_of_first(dir.children@.len(), w)),
    ensures
        sizes_fit(dir.units_of_first(n, w)),
    decreases dir.children@.len() - n,
{
    if n < dir.children@.len() {
        lemma_units_prefix_fit(dir, n + 1, w);
        lemma_sizes_fit_concat(
            dir.units_of_first(n, w),
            dir.children@[n as int].units(w, dir.device()),
        );
    }
}

/// Enumerate the units of one root.
///
/// Each entry of a directory becomes one removal unit; a root that is itself
/// a file or link is a single unit. Tells whether every size fits in 64 bits.
fn collect_root_items(root: &Option<FsEntry>, listing: &Listing, out: &mut Vec<CleanItem>) -> (fits:
    bool)
    ensures
        match *root {
            Some(entry) => {
                &&& fits == sizes_fit(entry.root_units(listing.window))
                &&& fits ==> item_values(final(out)@) == item_values(old(out)@) + listing.items(
                    entry.root_units(listing.window),
                )
            },
            None => fits && item_values(final(out)@) == item_values(old(out)@),
        },
{
    let ghost before = item_values(out@);
    let entry = match root {
        Some(entry) => entry,
        None => {
            return true;
        },
    };
    assert(before + listing.items(Seq::empty()) =~= before);
    if entry.meta.is_none() {
        return true;
    }
    let is_dir = match entry.kind {
        Some(kind) => kind == EntryKind::Directory,
        None => false,
    };
    if is_dir {
        collect_from_dir(entry, listing, out)
    } else {
        collect_entry(entry, listing, None, out)
    }
}

// ---------------------------------------------------------------------------
// Age windows
// ---------------------------------------------------------------------------
/// The instant that lies `age` before `now`; a negative age counts as none.
/// There is no cutoff without an age, nor before the earliest instant.
pub open spec fn cutoff_before(age: Option<Duration>, now: Timestamp) -> Option<Timestamp> {
    match age {
        Some(age) => {
            let back = if age.seconds < 0 {
                0
            } else {
                age.seconds as int
            };
            if now.secs - back < i64::MIN {
                None
            } else {
                Some(Timestamp { secs: (now.secs - back) as i64, nanos: now.nanos })
            }
        },
        None => None,
    }
}

pub fn effective_cutoff(age: Option<Duration>, now: Timestamp) -> (cutoff: Option<Timestamp>)
    ensures
        cutoff == cutoff_before(age, now),
{
    match age {
        Some(age) => {
            let back: i64 = if age.seconds < 0 {
                0
            } else {
                age.seconds
            };
            match now.secs.checked_sub(back) {
                Some(secs) => Some(Timestamp { secs, nanos: now.nanos }),
                None => None,
            }
        },
        None => None,
    }
}

// ---------------------------------------------------------------------------
// Roots
// ---------------------------------------------------------------------------
/// One root that a run looks at.
#[derive(Debug)]
pub struct PlanRoot {
    pub path: PathBuf,
    pub target_id: String,
    pub target_name: String,
    /// Age floor applied when none is asked for.
    pub min_age: Option<Duration>,
}

/// The mathematical value of a [`PlanRoot`].
pub struct Root {
    pub path: Seq<char>,
    pub owner: Owner,
    pub min_age: Option<int>,
}

impl View for PlanRoot {
    type V = Root;

    open spec fn view(&self) -> Root {
        Root {
            path: self.path@,
            owner: Owner { id: self.target_id@, name: self.target_name@ },
            min_age: match self.min_age {
                Some(age) => Some(age.seconds as int),
                None => None,
            },
        }
    }
}

/// The values of a list of roots.
pub open spec fn root_values(list: Seq<PlanRoot>) -> Seq<Root> {
    list.map_values(|root: PlanRoot| root@)
}

/// The roots of one target.
pub open spec fn target_roots(target: Target) -> Seq<Root> {
    Seq::new(
        target.paths.len(),
        |i: int|
            Root {
                path: target.paths[i],
                owner: Owner { id: target.id, name: target.name },
                min_age: target.min_age,
            },
    )
}

/// The roots of all `targets`, in order.
pub open spec fn roots_of(targets: Seq<Target>) -> Seq<Root>
    decreases targets.len(),
{
    if targets.len() == 0 {
        Seq::empty()
    } else {
        roots_of(targets.drop_last()) + target_roots(targets.last())
    }
}

/// The root that a path given by the user makes.
pub open spec fn custom_root(path: Seq<char>) -> Root {
    Root {
        path,
        owner: Owner { id: "custom-path"@, name: "Custom Path"@ },
        min_age: None,
    }
}

impl CleanOptions {
    /// The roots that a run with these options looks at, or the requested
    /// target that does not exist.
    pub open spec fn roots(self, env: Environment) -> Result<Seq<Root>, Seq<char>> {
        match self.custom_path {
            Some(path) => Ok(seq![custom_root(path@)]),
            None => match selection(strings(self.targets@), registered(env)) {
                Ok(targets) => Ok(roots_of(targets)),
                Err(unknown) => Err(unknown),
            },
        }
    }
}

/// The roots that a run looks at: the user's own path where one is given,
/// every path of every selected target otherwise.
pub fn plan_roots(options: &CleanOptions, env: &Environment) -> (out: Result<
    Vec<PlanRoot>,
    DiskPulseError,
>)
    ensures
        match out {
            Ok(list) => options.roots(*env) == Ok::<Seq<Root>, Seq<char>>(root_values(list@)),
            Err(DiskPulseError::Clean(CleanError::TargetNotFound(raw))) => options.roots(*env)
                == Err::<Seq<Root>, Seq<char>>(raw@),
            Err(_) => false,
        },
{
    let mut out: Vec<PlanRoot> = Vec::new();
    if let Some(path) = &options.custom_path {
        out.push(
            PlanRoot {
                path: path.clone(),
                target_id: "custom-path".to_owned(),
                target_name: "Custom Path".to_owned(),
                min_age: None,
            },
        );
        assert(root_values(out@) =~= seq![custom_root(path@)]);
        return Ok(out);
    }
    let targets = match resolve_targets(&options.targets, env) {
        Ok(targets) => targets,
        Err(error) => {
            return Err(error);
        },
    };
    let ghost all = target_values(targets@);
    let mut i: usize = 0;
    assert(all.take(0) =~= Seq::empty());
    assert(root_values(out@) =~= Seq::empty());
    while i < targets.len()
        invariant
            i <= targets@.len(),
            all == target_values(targets@),
            root_values(out@) == roots_of(all.take(i as int)),
        decreases targets.len() - i,
    {
        let ghost before = root_values(out@);
        let ghost target = targets@[i as int]@;
        proof {
            assert(all.take(i + 1).drop_last() =~= all.take(i as int));
            assert(all.take(i + 1).last() == target);
        }
        let mut k: usize = 0;
        assert(before + target_roots(target).take(0) =~= before);
        while k < targets[i as usize].paths.len()
            invariant
                i < targets@.len(),
                target == targets@[i as int]@,
                k <= targets@[i as int].paths@.len(),
                root_values(out@) == before + target_roots(target).take(k as int),
            decreases targets@[i as int].paths@.len() - k,
        {
            let ghost prior = root_values(out@);
            let root = PlanRoot {
                path: targets[i].paths[k].clone(),
                target_id: targets[i].id.to_owned(),
                target_name: targets[i].name.to_owned(),
                min_age: targets[i].default_older_than,
            };
            let ghost value = root@;
            assert(value == target_roots(target)[k as int]);
            out.push(root);
            assert(root_values(out@) =~= prior.push(value));
            assert(root_values(out@) =~= before + target_roots(target).take(k + 1));
            k += 1;
        }
        assert(target_roots(target).take(k as int) =~= target_roots(target));
        i += 1;
    }
    assert(all.take(all.len() as int) =~= all);
    Ok(out)
}

// ---------------------------------------------------------------------------
// The plan
// ---------------------------------------------------------------------------
/// What a run goes by: its options, the machine, the time and what was found
/// at each of its roots.
pub struct Inputs<'a> {
    pub options: &'a CleanOptions,
    pub env: &'a Environment,
    pub jail: &'a JailContext,
    pub now: Timestamp,
    /// What was found at each root of [`plan_roots`], in order.
    pub probes: &'a Vec<RootProbe>,
}

impl Inputs<'_> {
    /// The window through which the content of `root` is seen.
    pub open spec fn window(&self, root: Root) -> Window {
        Window {
            cutoff: match self.options.older_than {
                Some(age) => cutoff_before(Some(age), self.now),
                None => match root.min_age {
                    Some(seconds) => cutoff_before(
                        Some(Duration { seconds: seconds as i64 }),
                        self.now,
                    ),
                    None => None,
                },
            },
            one_file_system: self.options.one_file_system,
        }
    }

    /// Whether a registered root is left out: nothing is there, or the jail
    /// refuses it. A path given by the user is never left out silently.
    pub open spec fn left_out(&self, root: Root, probe: RootProbe) -> bool {
        self.options.custom_path is None && (!probe.exists || self.jail.verdict(
            self.jail.judged_at(root.path, spelling(probe.canonical)),
        ) is Some)
    }

    /// The units found at a root.
    pub open spec fn units(&self, root: Root, probe: RootProbe) -> Seq<Candidate> {
        if self.left_out(root, probe) {
            Seq::empty()
        } else {
            match probe.entry {
                Some(entry) => entry.root_units(self.window(root)),
                None => Seq::empty(),
            }
        }
    }

    /// The items that the first `n` roots contribute.
    pub open spec fn items_of_first(&self, roots: Seq<Root>, n: nat) -> Seq<Item>
        decreases n,
    {
        if n == 0 {
            Seq::empty()
        } else {
            let i = n - 1;
            self.items_of_first(roots, i as nat) + listed(
                *self.jail,
                self.options.min_size,
                roots[i].owner,
                self.units(roots[i], self.probes@[i]),
            )
        }
    }

    /// The items of the plan.
    pub open spec fn items(&self, roots: Seq<Root>) -> Seq<Item> {
        self.items_of_first(roots, roots.len())
    }

    /// Every size that is measured, and the sum of those that are planned,
    /// fits in 64 bits.
    pub open spec fn fits(&self, roots: Seq<Root>) -> bool {
        &&& forall|i: int|
            0 <= i < roots.len() ==> sizes_fit(
                self.units(#[trigger] roots[i], self.probes@[i]),
            )
        &&& item_bytes(self.items(roots)) <= u64::MAX
    }

    /// There is a probe for every root that a run looks at.
    pub open spec fn complete(&self) -> bool {
        self.options.roots(*self.env) matches Ok(roots) ==> self.probes@.len() == roots.len()
    }

    /// The refusal of a path given by the user.
    pub open spec fn refusal(&self) -> Option<crate::jail::Refusal> {
        match self.options.custom_path {
            Some(path) => self.jail.verdict(
                self.jail.judged_at(path@, spelling(self.probes@[0].canonical)),
            ),
            None => None,
        }
    }
}

/// The bytes of all `items` together.
pub open spec fn item_bytes(items: Seq<Item>) -> nat
    decreases items.len(),
{
    if items.len() == 0 {
        0
    } else {
        item_bytes(items.drop_last()) + items.last().size
    }
}

proof fn lemma_item_bytes(items: Seq<CleanItem>)
    ensures
        item_bytes(item_values(items)) == bytes_of(items),
    decreases items.len(),
{
    if items.len() > 0 {
        lemma_item_bytes(items.drop_last());
        assert(item_values(items).drop_last() =~= item_values(items.drop_last()));
    }
}

/// The items of the plan, where all sizes fit in 64 bits.
fn gather(inputs: &Inputs, roots: &Vec<PlanRoot>) -> (out: Option<Vec<CleanItem>>)
    requires
        inputs.probes@.len() == roots@.len(),
    ensures
        match out {
            Some(items) => {
                &&& inputs.fits(root_values(roots@))
                &&& item_values(items@) == inputs.items(root_values(roots@))
                &&& bytes_of(items@) <= u64::MAX
            },
            None => !inputs.fits(root_values(roots@)),
        },
{
    let ghost all = root_values(roots@);
    let options = inputs.options;
    let mut items: Vec<CleanItem> = Vec::new();
    let mut i: usize = 0;
    assert(item_values(items@) =~= Seq::empty());
    while i < roots.len()
        invariant
            i <= roots@.len() == inputs.probes@.len(),
            all == root_values(roots@),
            options == inputs.options,
            forall|j: int|
                0 <= j < i ==> sizes_fit(inputs.units(#[trigger] all[j], inputs.probes@[j])),
            item_values(items@) == inputs.items_of_first(all, i as nat),
        decreases roots.len() - i,
    {
        let root = &roots[i];
        let probe = &inputs.probes[i];
        let ghost before = item_values(items@);
        proof {
            assert(all[i as int] == root@);
            assert(inputs.probes@[i as int] == *probe);
            assert(listed(
                *inputs.jail,
                options.min_size,
                root@.owner,
                Seq::empty(),
            ) =~= Seq::empty());
            assert(before + Seq::<Item>::empty() =~= before);
        }
        let skip = options.custom_path.is_none() && (!probe.exists || validate_path_safety(
            inputs.jail,
            &root.path,
            &probe.canonical,
        ).is_err());
        assert(skip == inputs.left_out(root@, *probe));
        if !skip {
            let age = match options.older_than {
                Some(age) => Some(age),
                None => root.min_age,
            };
            let window = Window {
                cutoff: effective_cutoff(age, inputs.now),
                one_file_system: options.one_file_system,
            };
            assert(window == inputs.window(root@));
            let listing = Listing {
                jail: inputs.jail,
                min_size: options.min_size,
                target_id: root.target_id.as_str(),
                target_name: root.target_name.as_str(),
                window,
            };
            assert(listing.owner() == root@.owner);
            if !collect_root_items(&probe.entry, &listing, &mut items) {
                assert(!sizes_fit(inputs.units(all[i as int], inputs.probes@[i as int])));
                return None;
            }
        }
        assert(item_values(items@) =~= inputs.items_of_first(all, (i + 1) as nat));
        i += 1;
    }
    let mut total: u64 = 0;
    let mut k: usize = 0;
    assert(items@.take(0) =~= Seq::empty());
    while k < items.len()
        invariant
            k <= items@.len(),
            all == root_values(roots@),
            item_values(items@) == inputs.items(all),
            total == bytes_of(items@.take(k as int)),
        decreases items.len() - k,
    {
        proof {
            assert(items@.take(k + 1).drop_last() =~= items@.take(k as int));
            lemma_bytes_prefix(items@, k + 1);
            lemma_item_bytes(items@);
        }
        total = match total.checked_add(items[k].size) {
            Some(sum) => sum,
            None => {
                return None;
            },
        };
        k += 1;
    }
    proof {
        assert(items@.take(items@.len() as int) =~= items@);
        lemma_item_bytes(items@);
    }
    Some(items)
}

proof fn lemma_bytes_prefix(items: Seq<CleanItem>, k: int)
    requires
        0 <= k <= items.len(),
    ensures
        bytes_of(items.take(k)) <= bytes_of(items),
    decreases items.len() - k,
{
    if k == items.len() {
        assert(items.take(k) =~= items);
    } else {
        lemma_bytes_prefix(items, k + 1);
        assert(items.take(k + 1).drop_last() =~= items.take(k));
    }
}

/// Whether there is a probe for every root, and every size fits in 64 bits:
/// what [`create_clean_plan`] needs.
pub fn can_plan(inputs: &Inputs) -> (yes: bool)
    ensures
        yes == (inputs.complete() && (inputs.options.roots(*inputs.env) matches Ok(roots)
            ==> inputs.fits(roots))),
{
    match plan_roots(inputs.options, inputs.env) {
        Ok(roots) => {
            assert(root_values(roots@).len() == roots@.len());
            inputs.probes.len() == roots.len() && gather(inputs, &roots).is_some()
        },
        Err(_) => true,
    }
}

/// Resolve requested targets and enumerate deletion candidates.
///
/// A path given by the user gets hard-fail validation: pointing at a
/// protected location is an error, instead of silently cleaning nothing.
pub fn create_clean_plan(inputs: &Inputs) -> (out: Result<CleanPlan, DiskPulseError>)
    requires
        inputs.complete(),
        inputs.options.roots(*inputs.env) matches Ok(roots) ==> inputs.fits(roots),
    ensures
        match inputs.options.roots(*inputs.env) {
            Err(unknown) => {
                out matches Err(DiskPulseError::Clean(CleanError::TargetNotFound(raw))) && raw@
                    == unknown
            },
            Ok(roots) => if inputs.refusal() is Some {
                out matches Err(DiskPulseError::Safety(error)) && error.refusal()
                    == inputs.refusal()
            } else {
                out matches Ok(plan) && {
                    &&& item_values(plan.items@) == inputs.items(roots)
                    &&& plan.total_items == plan.items@.len()
                    &&& plan.total_bytes == bytes_of(plan.items@)
                    &&& breaks_down(plan.targets@, plan.items@)
                    &&& plan.is_dry_run == !inputs.options.apply
                    &&& plan.one_file_system == inputs.options.one_file_system
                }
            },
        },
        out matches Ok(plan) ==> forall|i: int|
            0 <= i < plan.items@.len() ==> {
                let item = #[trigger] plan.items@[i];
                &&& inputs.options.min_size matches Some(bytes) ==> item.size >= bytes
                &&& inputs.options.older_than matches Some(age) ==> (age.seconds >= 0
                    && inputs.now.secs - age.seconds >= i64::MIN ==> !item.is_dir && older(
                    item.modified,
                    inputs.now,
                    age.seconds as int,
                ))
            },
{
    let roots = match plan_roots(inputs.options, inputs.env) {
        Ok(roots) => roots,
        Err(error) => {
            return Err(error);
        },
    };
    assert(root_values(roots@).len() == roots@.len());
    if let Some(custom) = &inputs.options.custom_path {
        if let Err(error) = validate_path_safety(
            inputs.jail,
            custom,
            &inputs.probes[0].canonical,
        ) {
            return Err(DiskPulseError::Safety(error));
        }
    }
    let items = match gather(inputs, &roots) {
        Some(items) => items,
        None => Vec::new(),
    };
    assert(bytes_of(items@) <= u64::MAX);
    proof {
        let all = root_values(roots@);
        assert forall|i: int| 0 <= i < items@.len() implies {
            let item = #[trigger] items@[i];
            &&& inputs.options.min_size matches Some(bytes) ==> item.size >= bytes
            &&& inputs.options.older_than matches Some(age) ==> (age.seconds >= 0
                && inputs.now.secs - age.seconds >= i64::MIN ==> !item.is_dir && older(
                item.modified,
                inputs.now,
                age.seconds as int,
            ))
        } by {
            assert(item_values(items@)[i] == items@[i]@);
            law_planned_size(inputs, all, i);
            law_planned_age(inputs, all, i);
        }
    }
    let mut plan = CleanPlan::from_items(items, !inputs.options.apply);
    // The mount boundary is an execution-time concern; it travels on the plan.
    plan.one_file_system = inputs.options.one_file_system;
    Ok(plan)
}

// ---------------------------------------------------------------------------
// Laws
// ---------------------------------------------------------------------------
/// Under an age window no directory is ever a unit, and every unit was last
/// modified at or before the cutoff.
pub proof fn law_age_window(entry: FsEntry, w: Window, parent_dev: Option<u64>, cutoff: Timestamp)
    requires
        w.cutoff == Some(cutoff),
    ensures
        forall|k: int|
            0 <= k < entry.units(w, parent_dev).len() ==> {
                let unit = #[trigger] entry.units(w, parent_dev)[k];
                !unit.is_dir && (unit.modified matches Some(time) && time.at_or_before(cutoff))
            },
    decreases entry, entry.children@.len() + 1,
{
    if entry.meta is Some && entry.directory() {
        law_age_window_of_first(entry, entry.children@.len(), w, cutoff);
    }
}

/// The same of the entries of a directory.
pub proof fn law_age_window_of_first(dir: FsEntry, n: nat, w: Window, cutoff: Timestamp)
    requires
        w.cutoff == Some(cutoff),
        n <= dir.children@.len(),
    ensures
        forall|k: int|
            0 <= k < dir.units_of_first(n, w).len() ==> {
                let unit = #[trigger] dir.units_of_first(n, w)[k];
                !unit.is_dir && (unit.modified matches Some(time) && time.at_or_before(cutoff))
            },
    decreases dir, n,
{
    if n > 0 {
        law_age_window_of_first(dir, (n - 1) as nat, w, cutoff);
        law_age_window(dir.children@[n - 1], w, dir.device(), cutoff);
        let before = dir.units_of_first((n - 1) as nat, w);
        let next = dir.children@[n - 1].units(w, dir.device());
        let all = dir.units_of_first(n, w);
        assert forall|k: int| 0 <= k < all.len() implies {
            let unit = #[trigger] all[k];
            !unit.is_dir && (unit.modified matches Some(time) && time.at_or_before(cutoff))
        } by {
            if k < before.len() {
                assert(all[k] == before[k]);
            } else {
                assert(all[k] == next[k - before.len()]);
            }
        }
    }
}

/// Where no age is asked for, the content of a root with a minimum age is
/// left alone until it is that old: whatever is found there is a file or a
/// link that was last modified at least so long ago.
pub proof fn law_minimum_age(inputs: &Inputs, root: Root, probe: RootProbe, seconds: i64, k: int)
    requires
        inputs.options.older_than is None,
        root.min_age == Some(seconds as int),
        seconds >= 0,
        inputs.now.secs - seconds >= i64::MIN,
        0 <= k < inputs.units(root, probe).len(),
    ensures
        !inputs.units(root, probe)[k].is_dir,
        inputs.units(root, probe)[k].modified matches Some(time) && time.at_or_before(
            Timestamp { secs: (inputs.now.secs - seconds) as i64, nanos: inputs.now.nanos },
        ),
{
    let w = inputs.window(root);
    let cutoff = w.cutoff->0;
    let entry = probe.entry->0;
    if entry.directory() {
        law_age_window_of_first(entry, entry.children@.len(), w, cutoff);
    } else {
        law_age_window(entry, w, None, cutoff);
    }
    assert(entry.root_units(w)[k] == inputs.units(root, probe)[k]);
}

/// A link is at most one unit, which is no directory and is measured by the
/// link's own metadata.
pub proof fn law_links_are_own_units(link: FsEntry, w: Window, parent_dev: Option<u64>)
    requires
        link.kind == Some(EntryKind::Symlink),
    ensures
        link.units(w, parent_dev).len() <= 1,
        link.units(w, parent_dev).len() == 1 ==> {
            let unit = link.units(w, parent_dev)[0];
            !unit.is_dir && unit.path == link.path@ && link.meta is Some && unit.size
                == link.meta->0.physical()
        },
        forall|one_file_system: bool, root_dev: Option<u64>|
            #[trigger] link.bytes(one_file_system, root_dev) == 0,
{
}

/// Whether `item` stands for `unit`.
pub open spec fn stands_for(item: Item, owner: Owner, unit: Candidate) -> bool {
    item == (Item {
        path: unit.path,
        size: unit.size,
        target_id: owner.id,
        target_name: owner.name,
        is_dir: unit.is_dir,
        modified: unit.modified,
    })
}

proof fn lemma_listed_from(
    jail: JailContext,
    min_size: Option<u64>,
    owner: Owner,
    units: Seq<Candidate>,
    j: int,
)
    requires
        0 <= j < listed(jail, min_size, owner, units).len(),
    ensures
        exists|k: int|
            0 <= k < units.len() && listable(jail, min_size, #[trigger] units[k]) && stands_for(
                listed(jail, min_size, owner, units)[j],
                owner,
                units[k],
            ),
    decreases units.len(),
{
    let short = units.drop_last();
    let before = listed(jail, min_size, owner, short);
    if j < before.len() {
        lemma_listed_from(jail, min_size, owner, short, j);
        let k = choose|k: int|
            0 <= k < short.len() && listable(jail, min_size, #[trigger] short[k]) && stands_for(
                before[j],
                owner,
                short[k],
            );
        assert(units[k] == short[k]);
        assert(listed(jail, min_size, owner, units)[j] == before[j]);
    } else {
        assert(units[units.len() - 1] == units.last());
    }
}

/// Whatever a plan holds was found at one of its roots, is as large as asked
/// for and lies in a location that the jail allows.
pub proof fn law_planned_items_are_safe(inputs: &Inputs, roots: Seq<Root>, n: nat, j: int)
    requires
        n <= roots.len(),
        0 <= j < inputs.items_of_first(roots, n).len(),
    ensures
        exists|i: int, k: int|
            0 <= i < n && 0 <= k < inputs.units(roots[i], inputs.probes@[i]).len() && listable(
                *inputs.jail,
                inputs.options.min_size,
                #[trigger] inputs.units(roots[i], inputs.probes@[i])[k],
            ) && stands_for(
                inputs.items_of_first(roots, n)[j],
                roots[i].owner,
                inputs.units(roots[i], inputs.probes@[i])[k],
            ),
    decreases n,
{
    let m = (n - 1) as nat;
    let before = inputs.items_of_first(roots, m);
    let i0 = n - 1;
    let units = inputs.units(roots[i0], inputs.probes@[i0]);
    let next = listed(*inputs.jail, inputs.options.min_size, roots[i0].owner, units);
    let all = inputs.items_of_first(roots, n);
    if j < before.len() {
        law_planned_items_are_safe(inputs, roots, m, j);
        let (i, k) = choose|i: int, k: int|
            0 <= i < m && 0 <= k < inputs.units(roots[i], inputs.probes@[i]).len() && listable(
                *inputs.jail,
                inputs.options.min_size,
                #[trigger] inputs.units(roots[i], inputs.probes@[i])[k],
            ) && stands_for(
                before[j],
                roots[i].owner,
                inputs.units(roots[i], inputs.probes@[i])[k],
            );
        assert(all[j] == before[j]);
        assert(0 <= i < n && listable(
            *inputs.jail,
            inputs.options.min_size,
            inputs.units(roots[i], inputs.probes@[i])[k],
        ));
    } else {
        let rest = j - before.len();
        assert(all[j] == next[rest]);
        lemma_listed_from(
            *inputs.jail,
            inputs.options.min_size,
            roots[i0].owner,
            units,
            rest,
        );
        let k = choose|k: int|
            0 <= k < units.len() && listable(
                *inputs.jail,
                inputs.options.min_size,
                #[trigger] units[k],
            ) && stands_for(next[rest], roots[i0].owner, units[k]);
        assert(listable(
            *inputs.jail,
            inputs.options.min_size,
            inputs.units(roots[i0], inputs.probes@[i0])[k],
        ));
    }
}

/// An empty request selects exactly the targets that run by default, in the
/// order of the registry; `all` selects the registry.
pub proof fn law_selection(requested: Seq<Seq<char>>, registry: Seq<Target>)
    ensures
        requested.len() == 0 ==> selection(requested, registry) == Ok::<Seq<Target>, Seq<char>>(
            registry.filter(|t: Target| t.enabled_by_default),
        ),
        requested.contains("all"@) ==> selection(requested, registry) == Ok::<
            Seq<Target>,
            Seq<char>,
        >(registry),
{
    lemma_defaults_filter(registry);
}

proof fn lemma_defaults_filter(registry: Seq<Target>)
    ensures
        defaults(registry) == registry.filter(|t: Target| t.enabled_by_default),
    decreases registry.len(),
{
    reveal(Seq::filter);
    if registry.len() > 0 {
        lemma_defaults_filter(registry.drop_last());
    }
}

proof fn lemma_first_named_id(list: Seq<Target>, id: Seq<char>)
    ensures
        first_named(list, id) matches Some(target) ==> target.id == id && list.contains(target),
        (exists|i: int| 0 <= i < list.len() && (#[trigger] list[i]).id == id) ==> first_named(
            list,
            id,
        ) is Some,
    decreases list.len(),
{
    if list.len() > 0 {
        let short = list.drop_last();
        lemma_first_named_id(short, id);
        if first_named(short, id) is Some {
            let t = first_named(short, id)->0;
            let i = choose|i: int| 0 <= i < short.len() && short[i] == t;
            assert(list[i] == t);
        } else if list.last().id == id {
            assert(list[list.len() - 1] == list.last());
        }
        if exists|i: int| 0 <= i < list.len() && (#[trigger] list[i]).id == id {
            let i = choose|i: int| 0 <= i < list.len() && (#[trigger] list[i]).id == id;
            if i < short.len() {
                assert(short[i].id == id);
            }
        }
    }
}

/// A request by name selects no target twice, only registered ones, and every
/// name in it.
pub proof fn law_picked(requested: Seq<Seq<char>>, registry: Seq<Target>)
    ensures
        picked(requested, registry) matches Ok(list) ==> {
            &&& forall|i: int, j: int|
                0 <= i < j < list.len() ==> (#[trigger] list[i]).id != (#[trigger] list[j]).id
            &&& forall|i: int| 0 <= i < list.len() ==> registry.contains(#[trigger] list[i])
            &&& forall|k: int|
                0 <= k < requested.len() ==> names(list, #[trigger] requested[k])
        },
    decreases requested.len(),
{
    if requested.len() > 0 && picked(requested, registry) is Ok {
        let short = requested.drop_last();
        law_picked(short, registry);
        let before = picked(short, registry)->Ok_0;
        let list = picked(requested, registry)->Ok_0;
        let raw = requested.last();
        let target = first_named(registry, raw)->0;
        lemma_first_named_id(registry, raw);
        assert forall|k: int| 0 <= k < requested.len() implies names(
            list,
            #[trigger] requested[k],
        ) by {
            if k < short.len() {
                assert(requested[k] == short[k]);
                if !names(before, target.id) {
                    assert(list.take(before.len() as int) =~= before);
                    lemma_first_named_prefix(list, short[k], before.len() as int);
                }
            } else if !names(before, target.id) {
                lemma_first_named_id(list, raw);
                assert(list[list.len() - 1].id == raw);
            }
        }
        if !names(before, target.id) {
            assert forall|i: int, j: int| 0 <= i < j < list.len() implies (
            #[trigger] list[i]).id != (#[trigger] list[j]).id by {
                if j == before.len() {
                    lemma_first_named_id(before, target.id);
                    assert(list[i] == before[i]);
                } else {
                    assert(list[i] == before[i] && list[j] == before[j]);
                }
            }
            assert forall|i: int| 0 <= i < list.len() implies registry.contains(
                #[trigger] list[i],
            ) by {
                if i < before.len() {
                    assert(list[i] == before[i]);
                }
            }
        }
    }
}

impl FsEntry {
    /// Whether `e` is this entry or lies somewhere below it.
    pub open spec fn holds(self, e: FsEntry) -> bool
        decreases self,
    {
        self == e || exists|i: int|
            0 <= i < self.children@.len() && (#[trigger] self.children@[i]).holds(e)
    }
}

/// Whether a unit is what entry `e` makes: its own path, kind and time, and
/// the bytes that it takes.
pub open spec fn unit_of(unit: Candidate, e: FsEntry) -> bool {
    &&& unit.path == e.path@
    &&& unit.canonical == spelling(e.canonical)
    &&& unit.is_dir == (e.kind == Some(EntryKind::Directory))
    &&& unit.modified == e.modified
    &&& e.meta is Some
    &&& e.kind != Some(EntryKind::Directory) ==> unit.size == e.meta->0.physical()
}

proof fn lemma_units_found(entry: FsEntry, w: Window, parent_dev: Option<u64>, k: int)
    requires
        0 <= k < entry.units(w, parent_dev).len(),
    ensures
        exists|e: FsEntry|
            #[trigger] entry.holds(e) && unit_of(entry.units(w, parent_dev)[k], e),
    decreases entry, entry.children@.len() + 1,
{
    if entry.directory() && w.cutoff is Some {
        lemma_units_of_first_found(entry, entry.children@.len(), w, k);
        let units = entry.units_of_first(entry.children@.len(), w);
        let (i, e) = choose|i: int, e: FsEntry|
            0 <= i < entry.children@.len() && #[trigger] entry.children@[i].holds(e) && unit_of(
                units[k],
                e,
            );
        assert(entry.holds(e));
    } else {
        assert(entry.holds(entry));
        assert(unit_of(entry.units(w, parent_dev)[k], entry));
    }
}

proof fn lemma_units_of_first_found(dir: FsEntry, n: nat, w: Window, k: int)
    requires
        n <= dir.children@.len(),
        0 <= k < dir.units_of_first(n, w).len(),
    ensures
        exists|i: int, e: FsEntry|
            0 <= i < dir.children@.len() && #[trigger] dir.children@[i].holds(e) && unit_of(
                dir.units_of_first(n, w)[k],
                e,
            ),
    decreases dir, n,
{
    let before = dir.units_of_first((n - 1) as nat, w);
    let child = dir.children@[n - 1];
    let next = child.units(w, dir.device());
    let all = dir.units_of_first(n, w);
    if k < before.len() {
        lemma_units_of_first_found(dir, (n - 1) as nat, w, k);
        assert(all[k] == before[k]);
    } else {
        let m = k - before.len();
        assert(all[k] == next[m]);
        lemma_units_found(child, w, dir.device(), m);
        let e = choose|e: FsEntry| #[trigger] child.holds(e) && unit_of(next[m], e);
        assert(dir.children@[n - 1].holds(e));
    }
}

proof fn lemma_root_units_found(entry: FsEntry, w: Window, k: int)
    requires
        0 <= k < entry.root_units(w).len(),
    ensures
        exists|e: FsEntry| #[trigger] entry.holds(e) && unit_of(entry.root_units(w)[k], e),
{
    if entry.directory() {
        let units = entry.units_of_first(entry.children@.len(), w);
        lemma_units_of_first_found(entry, entry.children@.len(), w, k);
        let (i, e) = choose|i: int, e: FsEntry|
            0 <= i < entry.children@.len() && #[trigger] entry.children@[i].holds(e) && unit_of(
                units[k],
                e,
            );
        assert(entry.holds(e));
    } else {
        lemma_units_found(entry, w, None, k);
    }
}

/// Every planned item is at least as large as asked for, directory or not.
pub proof fn law_planned_size(inputs: &Inputs, roots: Seq<Root>, j: int)
    requires
        0 <= j < inputs.items(roots).len(),
    ensures
        inputs.options.min_size matches Some(bytes) ==> inputs.items(roots)[j].size >= bytes,
{
    law_planned_items_are_safe(inputs, roots, roots.len(), j);
}

/// Every planned item was found below one of the roots that the run looks at,
/// is listed as what it is, under the target of that root, and lies in a
/// location that the jail allows.
pub proof fn law_planned_found(inputs: &Inputs, roots: Seq<Root>, j: int)
    requires
        0 <= j < inputs.items(roots).len(),
    ensures
        exists|i: int, e: FsEntry|
            0 <= i < roots.len() && inputs.probes@[i].entry is Some
                && #[trigger] inputs.probes@[i].entry->0.holds(e) && {
                let item = inputs.items(roots)[j];
                &&& item.path == e.path@
                &&& item.is_dir == (e.kind == Some(EntryKind::Directory))
                &&& item.modified == e.modified
                &&& e.meta is Some
                &&& e.kind != Some(EntryKind::Directory) ==> item.size == e.meta->0.physical()
                &&& item.target_id == roots[i].owner.id
                &&& item.target_name == roots[i].owner.name
                &&& inputs.jail.verdict(
                    inputs.jail.judged_at(e.path@, spelling(e.canonical)),
                ) is None
            },
{
    law_planned_items_are_safe(inputs, roots, roots.len(), j);
    let (i, k) = choose|i: int, k: int|
        0 <= i < roots.len() && 0 <= k < inputs.units(roots[i], inputs.probes@[i]).len()
            && listable(
            *inputs.jail,
            inputs.options.min_size,
            #[trigger] inputs.units(roots[i], inputs.probes@[i])[k],
        ) && stands_for(
            inputs.items_of_first(roots, roots.len())[j],
            roots[i].owner,
            inputs.units(roots[i], inputs.probes@[i])[k],
        );
    let entry = inputs.probes@[i].entry->0;
    let w = inputs.window(roots[i]);
    lemma_root_units_found(entry, w, k);
    let e = choose|e: FsEntry| #[trigger] entry.holds(e) && unit_of(entry.root_units(w)[k], e);
    assert(inputs.probes@[i].entry->0.holds(e));
}

/// Whether `time` lies at least `seconds` before `now`.
pub open spec fn older(time: Option<Timestamp>, now: Timestamp, seconds: int) -> bool {
    time matches Some(time) && (time.secs < now.secs - seconds || (time.secs == now.secs - seconds
        && time.nanos <= now.nanos))
}

/// With a minimum age, every planned item is a file or a link that was last
/// modified at least so long ago: the age asked for, or where none is, that of
/// the target it is listed under.
#[verifier::spinoff_prover]
#[verifier::rlimit(40)]
pub proof fn law_planned_age(inputs: &Inputs, roots: Seq<Root>, j: int)
    requires
        0 <= j < inputs.items(roots).len(),
    ensures
        inputs.options.older_than matches Some(age) ==> (age.seconds >= 0 && inputs.now.secs
            - age.seconds >= i64::MIN ==> !inputs.items(roots)[j].is_dir && older(
            inputs.items(roots)[j].modified,
            inputs.now,
            age.seconds as int,
        )),
        inputs.options.older_than is None ==> exists|i: int|
            0 <= i < roots.len() && #[trigger] roots[i].owner.id == inputs.items(roots)[j].target_id
                && (roots[i].min_age matches Some(seconds) ==> (0 <= seconds <= i64::MAX
                && inputs.now.secs - seconds >= i64::MIN ==> !inputs.items(roots)[j].is_dir
                && older(inputs.items(roots)[j].modified, inputs.now, seconds))),
{
    law_planned_items_are_safe(inputs, roots, roots.len(), j);
    let (i, k) = choose|i: int, k: int|
        0 <= i < roots.len() && 0 <= k < inputs.units(roots[i], inputs.probes@[i]).len()
            && listable(
            *inputs.jail,
            inputs.options.min_size,
            #[trigger] inputs.units(roots[i], inputs.probes@[i])[k],
        ) && stands_for(
            inputs.items_of_first(roots, roots.len())[j],
            roots[i].owner,
            inputs.units(roots[i], inputs.probes@[i])[k],
        );
    let entry = inputs.probes@[i].entry->0;
    let w = inputs.window(roots[i]);
    let unit = entry.root_units(w)[k];
    if w.cutoff is Some {
        let cutoff = w.cutoff->0;
        if entry.directory() {
            law_age_window_of_first(entry, entry.children@.len(), w, cutoff);
        } else {
            law_age_window(entry, w, None, cutoff);
        }
        assert(!unit.is_dir && unit.modified is Some && unit.modified->0.at_or_before(cutoff));
    }
    assert(roots[i].owner.id == inputs.items(roots)[j].target_id);
}

proof fn lemma_listed_contains(
    jail: JailContext,
    min_size: Option<u64>,
    owner: Owner,
    units: Seq<Candidate>,
    k: int,
)
    requires
        0 <= k < units.len(),
        min_size matches Some(bytes) ==> units[k].size >= bytes,
        jail.verdict(jail.judged_at(units[k].path, units[k].canonical)) is None,
    ensures
        exists|j: int|
            0 <= j < listed(jail, min_size, owner, units).len() && stands_for(
                #[trigger] listed(jail, min_size, owner, units)[j],
                owner,
                units[k],
            ),
    decreases units.len(),
{
    let out = listed(jail, min_size, owner, units);
    if k == units.len() - 1 {
        assert(stands_for(out[out.len() - 1], owner, units[k]));
    } else {
        let short = units.drop_last();
        let before = listed(jail, min_size, owner, short);
        lemma_listed_contains(jail, min_size, owner, short, k);
        let j = choose|j: int|
            0 <= j < before.len() && stands_for(#[trigger] before[j], owner, short[k]);
        assert(out[j] == before[j]);
        assert(stands_for(out[j], owner, units[k]));
    }
}

proof fn lemma_items_contain(inputs: &Inputs, roots: Seq<Root>, n: nat, i: int, j: int)
    requires
        0 <= i < n <= roots.len(),
        0 <= j < listed(
            *inputs.jail,
            inputs.options.min_size,
            roots[i].owner,
            inputs.units(roots[i], inputs.probes@[i]),
        ).len(),
    ensures
        exists|m: int|
            0 <= m < inputs.items_of_first(roots, n).len()
                && #[trigger] inputs.items_of_first(roots, n)[m] == listed(
                *inputs.jail,
                inputs.options.min_size,
                roots[i].owner,
                inputs.units(roots[i], inputs.probes@[i]),
            )[j],
    decreases n,
{
    let before = inputs.items_of_first(roots, (n - 1) as nat);
    let all = inputs.items_of_first(roots, n);
    if i == n - 1 {
        assert(all[before.len() + j] == listed(
            *inputs.jail,
            inputs.options.min_size,
            roots[i].owner,
            inputs.units(roots[i], inputs.probes@[i]),
        )[j]);
    } else {
        lemma_items_contain(inputs, roots, (n - 1) as nat, i, j);
        let item = listed(
            *inputs.jail,
            inputs.options.min_size,
            roots[i].owner,
            inputs.units(roots[i], inputs.probes@[i]),
        )[j];
        let m = choose|m: int| 0 <= m < before.len() && #[trigger] before[m] == item;
        assert(all[m] == item);
    }
}

proof fn lemma_unit_planned(inputs: &Inputs, roots: Seq<Root>, i: int, k: int)
    requires
        0 <= i < roots.len(),
        0 <= k < inputs.units(roots[i], inputs.probes@[i]).len(),
        ({
            let unit = inputs.units(roots[i], inputs.probes@[i])[k];
            &&& inputs.options.min_size matches Some(bytes) ==> unit.size >= bytes
            &&& inputs.jail.verdict(inputs.jail.judged_at(unit.path, unit.canonical)) is None
        }),
    ensures
        exists|m: int|
            0 <= m < inputs.items(roots).len() && stands_for(
                #[trigger] inputs.items(roots)[m],
                roots[i].owner,
                inputs.units(roots[i], inputs.probes@[i])[k],
            ),
{
    let units = inputs.units(roots[i], inputs.probes@[i]);
    let list = listed(*inputs.jail, inputs.options.min_size, roots[i].owner, units);
    lemma_listed_contains(*inputs.jail, inputs.options.min_size, roots[i].owner, units, k);
    let j = choose|j: int|
        0 <= j < list.len() && stands_for(#[trigger] list[j], roots[i].owner, units[k]);
    lemma_items_contain(inputs, roots, roots.len(), i, j);
    let m = choose|m: int|
        0 <= m < inputs.items_of_first(roots, roots.len()).len()
            && #[trigger] inputs.items_of_first(roots, roots.len())[m] == list[j];
    assert(stands_for(inputs.items(roots)[m], roots[i].owner, units[k]));
}

proof fn lemma_child_units(dir: FsEntry, n: nat, w: Window, c: int, k: int)
    requires
        0 <= c < n <= dir.children@.len(),
        0 <= k < dir.children@[c].units(w, dir.device()).len(),
    ensures
        exists|m: int|
            0 <= m < dir.units_of_first(n, w).len() && #[trigger] dir.units_of_first(n, w)[m]
                == dir.children@[c].units(w, dir.device())[k],
    decreases n,
{
    let before = dir.units_of_first((n - 1) as nat, w);
    let all = dir.units_of_first(n, w);
    let unit = dir.children@[c].units(w, dir.device())[k];
    if c == n - 1 {
        assert(all[before.len() + k] == unit);
    } else {
        lemma_child_units(dir, (n - 1) as nat, w, c, k);
        let m = choose|m: int| 0 <= m < before.len() && #[trigger] before[m] == unit;
        assert(all[m] == unit);
    }
}

/// Without a minimum age, every entry of a root directory that is looked at is
/// planned as one item, files, links and directories alike, if only it can be
/// read, is large enough and may be cleaned. A directory on another device is
/// left alone where that is asked for.
#[verifier::spinoff_prover]
#[verifier::rlimit(40)]
pub proof fn law_entries_planned(inputs: &Inputs, roots: Seq<Root>, i: int, c: int)
    requires
        0 <= i < roots.len(),
        inputs.options.older_than is None,
        roots[i].min_age is None,
        inputs.probes@[i].entry is Some,
        inputs.probes@[i].entry->0.meta is Some,
        inputs.probes@[i].entry->0.kind == Some(EntryKind::Directory),
        inputs.options.custom_path is Some || (inputs.probes@[i].exists && inputs.jail.verdict(
            inputs.jail.judged_at(roots[i].path, spelling(inputs.probes@[i].canonical)),
        ) is None),
        0 <= c < inputs.probes@[i].entry->0.children@.len(),
        ({
            let dir = inputs.probes@[i].entry->0;
            let child = dir.children@[c];
            &&& child.meta is Some
            &&& child.kind == Some(EntryKind::Directory) && inputs.options.one_file_system
                ==> child.meta->0.device is None || dir.meta->0.device is None
                || child.meta->0.device == dir.meta->0.device
            &&& inputs.options.min_size matches Some(bytes) ==> bytes <= (if child.kind == Some(
                EntryKind::Directory,
            ) {
                child.tree_bytes(inputs.options.one_file_system, dir.meta->0.device)
            } else {
                child.meta->0.physical()
            })
            &&& inputs.jail.verdict(
                inputs.jail.judged_at(child.path@, spelling(child.canonical)),
            ) is None
        }),
    ensures
        exists|m: int|
            0 <= m < inputs.items(roots).len() && {
                let item = #[trigger] inputs.items(roots)[m];
                let child = inputs.probes@[i].entry->0.children@[c];
                &&& item.path == child.path@
                &&& item.is_dir == (child.kind == Some(EntryKind::Directory))
                &&& item.target_id == roots[i].owner.id
                &&& item.target_name == roots[i].owner.name
                &&& item.modified == child.modified
                &&& item.size == (if item.is_dir {
                    child.tree_bytes(
                        inputs.options.one_file_system,
                        inputs.probes@[i].entry->0.meta->0.device,
                    )
                } else {
                    child.meta->0.physical()
                })
            },
{
    let dir = inputs.probes@[i].entry->0;
    let child = dir.children@[c];
    let w = inputs.window(roots[i]);
    let unit = child.units(w, dir.device())[0];
    assert(child.units(w, dir.device()).len() == 1);
    lemma_child_units(dir, dir.children@.len(), w, c, 0);
    let units = inputs.units(roots[i], inputs.probes@[i]);
    let k = choose|k: int|
        0 <= k < dir.units_of_first(dir.children@.len(), w).len() && #[trigger] dir.units_of_first(
            dir.children@.len(),
            w,
        )[k] == unit;
    assert(units[k] == unit);
    lemma_unit_planned(inputs, roots, i, k);
    let m = choose|m: int|
        0 <= m < inputs.items(roots).len() && stands_for(
            #[trigger] inputs.items(roots)[m],
            roots[i].owner,
            units[k],
        );
    assert(inputs.items(roots)[m].path == child.path@);
}

impl FsEntry {
    /// Whether `e` lies somewhere below this directory, with readable
    /// directories all the way down.
    pub open spec fn leads_to(self, e: FsEntry) -> bool
        decreases self,
    {
        exists|i: int|
            0 <= i < self.children@.len() && {
                let child = #[trigger] self.children@[i];
                child == e || (child.kind == Some(EntryKind::Directory) && child.meta is Some
                    && child.leads_to(e))
            }
    }
}

proof fn lemma_nested_units(dir: FsEntry, w: Window, e: FsEntry, cutoff: Timestamp)
    requires
        w.cutoff == Some(cutoff),
        !w.one_file_system,
        dir.leads_to(e),
        e.meta is Some,
        e.kind != Some(EntryKind::Directory),
        e.modified is Some,
        e.modified->0.at_or_before(cutoff),
    ensures
        exists|m: int|
            0 <= m < dir.units_of_first(dir.children@.len(), w).len() && unit_of(
                #[trigger] dir.units_of_first(dir.children@.len(), w)[m],
                e,
            ),
    decreases dir,
{
    let i = choose|i: int|
        0 <= i < dir.children@.len() && {
            let child = #[trigger] dir.children@[i];
            child == e || (child.kind == Some(EntryKind::Directory) && child.meta is Some
                && child.leads_to(e))
        };
    let child = dir.children@[i];
    let units = child.units(w, dir.device());
    let all = dir.units_of_first(dir.children@.len(), w);
    let k: int = if child == e {
        0
    } else {
        choose|k: int|
            0 <= k < child.units_of_first(child.children@.len(), w).len() && unit_of(
                #[trigger] child.units_of_first(child.children@.len(), w)[k],
                e,
            )
    };
    if child != e {
        assert(decreases_to!(dir => dir.children@[i]));
        lemma_nested_units(child, w, e, cutoff);
    } else {
        assert(units.len() == 1);
    }
    assert(0 <= k < units.len() && unit_of(units[k], e));
    lemma_child_units(dir, dir.children@.len(), w, i, k);
    let m = choose|m: int| 0 <= m < all.len() && #[trigger] all[m] == units[k];
    assert(unit_of(all[m], e));
}

/// With a minimum age, every file and link below a root that is looked at is
/// planned, however deep it lies, if only it is old enough, large enough and
/// may be cleaned.
#[verifier::spinoff_prover]
#[verifier::rlimit(40)]
pub proof fn law_old_files_planned(
    inputs: &Inputs,
    roots: Seq<Root>,
    i: int,
    e: FsEntry,
    seconds: i64,
)
    requires
        0 <= i < roots.len(),
        !inputs.options.one_file_system,
        match inputs.options.older_than {
            Some(age) => age.seconds == seconds,
            None => roots[i].min_age == Some(seconds as int),
        },
        seconds >= 0,
        inputs.now.secs - seconds >= i64::MIN,
        inputs.probes@[i].entry is Some,
        inputs.probes@[i].entry->0.meta is Some,
        inputs.probes@[i].entry->0.kind == Some(EntryKind::Directory),
        inputs.options.custom_path is Some || (inputs.probes@[i].exists && inputs.jail.verdict(
            inputs.jail.judged_at(roots[i].path, spelling(inputs.probes@[i].canonical)),
        ) is None),
        inputs.probes@[i].entry->0.leads_to(e),
        e.meta is Some,
        e.kind != Some(EntryKind::Directory),
        older(e.modified, inputs.now, seconds as int),
        inputs.options.min_size matches Some(bytes) ==> bytes <= e.meta->0.physical(),
        inputs.jail.verdict(inputs.jail.judged_at(e.path@, spelling(e.canonical))) is None,
    ensures
        exists|m: int|
            0 <= m < inputs.items(roots).len() && {
                let item = #[trigger] inputs.items(roots)[m];
                &&& item.path == e.path@
                &&& !item.is_dir
                &&& item.size == e.meta->0.physical()
                &&& item.target_id == roots[i].owner.id
            },
{
    let dir = inputs.probes@[i].entry->0;
    let w = inputs.window(roots[i]);
    let cutoff = w.cutoff->0;
    assert(e.modified->0.at_or_before(cutoff));
    lemma_nested_units(dir, w, e, cutoff);
    let units = inputs.units(roots[i], inputs.probes@[i]);
    let k = choose|k: int|
        0 <= k < dir.units_of_first(dir.children@.len(), w).len() && unit_of(
            #[trigger] dir.units_of_first(dir.children@.len(), w)[k],
            e,
        );
    assert(unit_of(units[k], e));
    lemma_unit_planned(inputs, roots, i, k);
    let m = choose|m: int|
        0 <= m < inputs.items(roots).len() && stands_for(
            #[trigger] inputs.items(roots)[m],
            roots[i].owner,
            units[k],
        );
    assert(inputs.items(roots)[m].path == e.path@);
}

/// A registered root that is not there, or that the jail refuses, contributes
/// nothing, whatever lies below it.
pub proof fn law_refused_roots_left_out(inputs: &Inputs, root: Root, probe: RootProbe)
    requires
        inputs.options.custom_path is None,
        !probe.exists || inputs.jail.verdict(
            inputs.jail.judged_at(root.path, spelling(probe.canonical)),
        ) is Some,
    ensures
        inputs.units(root, probe).len() == 0,
{
}

/// A path given by the user is the only root of a run, is listed under a name
/// of its own, has no minimum age, and is refused where the jail refuses it.
pub proof fn law_custom_path(inputs: &Inputs, path: PathBuf)
    requires
        inputs.options.custom_path == Some(path),
    ensures
        inputs.options.roots(*inputs.env) matches Ok(roots) && {
            &&& roots.len() == 1
            &&& roots[0].path == path@
            &&& roots[0].owner.id == "custom-path"@
            &&& roots[0].owner.name == "Custom Path"@
            &&& roots[0].min_age is None
        },
        inputs.refusal() == inputs.jail.verdict(
            inputs.jail.judged_at(path@, spelling(inputs.probes@[0].canonical)),
        ),
{
}

/// Every path of every selected target is a root, listed under that target and
/// with its minimum age; and there are no others.
pub proof fn law_target_roots(targets: Seq<Target>, i: int, k: int, r: int)
    ensures
        0 <= i < targets.len() && 0 <= k < targets[i].paths.len() ==> exists|m: int|
            0 <= m < roots_of(targets).len() && {
                let root = #[trigger] roots_of(targets)[m];
                &&& root.path == targets[i].paths[k]
                &&& root.owner.id == targets[i].id
                &&& root.owner.name == targets[i].name
                &&& root.min_age == targets[i].min_age
            },
        0 <= r < roots_of(targets).len() ==> exists|t: int|
            0 <= t < targets.len() && {
                let target = #[trigger] targets[t];
                let root = roots_of(targets)[r];
                &&& target.paths.contains(root.path)
                &&& root.owner.id == target.id
                &&& root.owner.name == target.name
                &&& root.min_age == target.min_age
            },
    decreases targets.len(),
{
    if targets.len() > 0 {
        let short = targets.drop_last();
        let before = roots_of(short);
        let last = targets.last();
        let next = target_roots(last);
        let all = roots_of(targets);
        law_target_roots(short, i, k, r);
        if 0 <= i < targets.len() && 0 <= k < targets[i].paths.len() {
            if i == targets.len() - 1 {
                assert(all[before.len() + k] == next[k]);
            } else {
                let m = choose|m: int|
                    0 <= m < before.len() && {
                        let root = #[trigger] before[m];
                        &&& root.path == short[i].paths[k]
                        &&& root.owner.id == short[i].id
                        &&& root.owner.name == short[i].name
                        &&& root.min_age == short[i].min_age
                    };
                assert(all[m] == before[m]);
            }
        }
        if 0 <= r < all.len() {
            if r < before.len() {
                assert(all[r] == before[r]);
                let t = choose|t: int|
                    0 <= t < short.len() && {
                        let target = #[trigger] short[t];
                        let root = before[r];
                        &&& target.paths.contains(root.path)
                        &&& root.owner.id == target.id
                        &&& root.owner.name == target.name
                        &&& root.min_age == target.min_age
                    };
                assert(targets[t] == short[t]);
            } else {
                assert(all[r] == next[r - before.len()]);
                assert(last.paths[r - before.len()] == all[r].path);
                assert(targets[targets.len() - 1] == last);
            }
        }
    }
}

/// Where a run must stay on its device, a directory that is known to lie on
/// another one than the directory that holds it is left alone.
pub proof fn law_foreign_directories_left(
    dir: FsEntry,
    w: Window,
    parent_dev: u64,
    device: u64,
)
    requires
        w.one_file_system,
        dir.kind == Some(EntryKind::Directory),
        dir.meta is Some,
        dir.meta->0.device == Some(device),
        device != parent_dev,
    ensures
        dir.units(w, Some(parent_dev)).len() == 0,
        dir.bytes(true, Some(parent_dev)) == 0,
{
}

/// The sum of `list`.
pub open spec fn sum(list: Seq<nat>) -> nat
    decreases list.len(),
{
    if list.len() == 0 {
        0
    } else {
        sum(list.drop_last()) + list.last()
    }
}

proof fn lemma_bytes_sum(dir: FsEntry, one_file_system: bool, root_dev: Option<u64>, n: nat)
    requires
        n <= dir.children@.len(),
    ensures
        dir.bytes_of_first(n, one_file_system, root_dev) == sum(
            Seq::new(n, |i: int| dir.children@[i].bytes(one_file_system, root_dev)),
        ),
    decreases n,
{
    let list = Seq::new(n, |i: int| dir.children@[i].bytes(one_file_system, root_dev));
    if n > 0 {
        lemma_bytes_sum(dir, one_file_system, root_dev, (n - 1) as nat);
        assert(list.drop_last() =~= Seq::new(
            (n - 1) as nat,
            |i: int| dir.children@[i].bytes(one_file_system, root_dev),
        ));
    }
}

/// What a tree weighs: the sum of what its entries do. A directory weighs what
/// its own entries do, a link nothing, any other entry its allocated bytes.
pub proof fn law_tree_weight(dir: FsEntry, i: int)
    requires
        0 <= i < dir.children@.len(),
    ensures
        dir.tree_bytes(false, None) == sum(
            Seq::new(dir.children@.len(), |k: int| dir.children@[k].bytes(false, None)),
        ),
        ({
            let child = dir.children@[i];
            child.bytes(false, None) == match child.kind {
                Some(EntryKind::Directory) => child.tree_bytes(false, None),
                Some(EntryKind::Symlink) => 0,
                Some(_) => match child.meta {
                    Some(meta) => match meta.blocks {
                        Some(blocks) => (blocks * 512) as nat,
                        None => meta.len as nat,
                    },
                    None => 0,
                },
                None => 0,
            }
        }),
{
    lemma_bytes_sum(dir, false, None, dir.children@.len());
}

/// Whether `list` is what is called by the names `requested`, and nothing else,
/// in the order in which the names first come.
pub open spec fn exactly_named(
    list: Seq<Target>,
    requested: Seq<Seq<char>>,
    registry: Seq<Target>,
) -> bool {
    &&& forall|k: int|
        0 <= k < requested.len() ==> exists|i: int|
            0 <= i < list.len() && (#[trigger] list[i]).id == #[trigger] requested[k]
    &&& forall|i: int| 0 <= i < list.len() ==> registry.contains(#[trigger] list[i])
    &&& forall|i: int| 0 <= i < list.len() ==> requested.contains((#[trigger] list[i]).id)
    &&& forall|i: int, j: int, m: int|
        0 <= i < j < list.len() && 0 <= m < requested.len() && (#[trigger] list[j]).id
            == #[trigger] requested[m] ==> requested.take(m).contains((#[trigger] list[i]).id)
}

/// Whether one of `registry` is called `id`.
pub open spec fn known_name(registry: Seq<Target>, id: Seq<char>) -> bool {
    exists|i: int| 0 <= i < registry.len() && (#[trigger] registry[i]).id == id
}

/// A request by name, without `all`, selects what is named and nothing else,
/// in the order in which the names first come; the first name that nothing is
/// called by makes it fail.
pub proof fn law_picked_exactly(requested: Seq<Seq<char>>, registry: Seq<Target>)
    requires
        requested.len() > 0,
        !requested.contains("all"@),
    ensures
        match selection(requested, registry) {
            Ok(list) => exactly_named(list, requested, registry),
            Err(unknown) => !known_name(registry, unknown) && exists|k: int|
                {
                    &&& 0 <= k < requested.len()
                    &&& #[trigger] requested[k] == unknown
                    &&& forall|m: int| 0 <= m < k ==> known_name(registry, #[trigger] requested[m])
                },
        },
{
    lemma_picked_exactly(requested, registry);
}

proof fn lemma_picked_exactly(requested: Seq<Seq<char>>, registry: Seq<Target>)
    ensures
        match picked(requested, registry) {
            Ok(list) => {
                &&& exactly_named(list, requested, registry)
                &&& forall|k: int|
                    0 <= k < requested.len() ==> known_name(registry, #[trigger] requested[k])
            },
            Err(unknown) => !known_name(registry, unknown) && exists|k: int|
                {
                    &&& 0 <= k < requested.len()
                    &&& #[trigger] requested[k] == unknown
                    &&& forall|m: int| 0 <= m < k ==> known_name(registry, #[trigger] requested[m])
                },
        },
    decreases requested.len(),
{
    if requested.len() > 0 {
        let short = requested.drop_last();
        let raw = requested.last();
        let last = requested.len() - 1;
        lemma_picked_exactly(short, registry);
        lemma_first_named_id(registry, raw);
        match picked(short, registry) {
            Err(unknown) => {
                let k = choose|k: int|
                    {
                        &&& 0 <= k < short.len()
                        &&& #[trigger] short[k] == unknown
                        &&& forall|m: int| 0 <= m < k ==> known_name(registry, #[trigger] short[m])
                    };
                assert(requested[k] == unknown);
                assert forall|m: int| 0 <= m < k implies known_name(
                    registry,
                    #[trigger] requested[m],
                ) by {
                    assert(requested[m] == short[m]);
                }
            },
            Ok(before) => {
                assert forall|m: int| 0 <= m < last implies known_name(
                    registry,
                    #[trigger] requested[m],
                ) by {
                    assert(requested[m] == short[m]);
                }
                match first_named(registry, raw) {
                    None => {
                        assert(requested[last] == raw);
                    },
                    Some(target) => {
                        let i = choose|i: int| 0 <= i < registry.len() && registry[i] == target;
                        assert(registry[i].id == raw);
                        assert(known_name(registry, raw));
                        lemma_picked_step(
                            requested,
                            registry,
                            before,
                            picked(requested, registry)->Ok_0,
                            target,
                        );
                    },
                }
            },
        }
    }
}

/// One more known name.
#[verifier::spinoff_prover]
#[verifier::rlimit(40)]
proof fn lemma_picked_step(
    requested: Seq<Seq<char>>,
    registry: Seq<Target>,
    before: Seq<Target>,
    list: Seq<Target>,
    target: Target,
)
    requires
        requested.len() > 0,
        target.id == requested.last(),
        registry.contains(target),
        exactly_named(before, requested.drop_last(), registry),
        names(before, target.id) ==> list == before,
        !names(before, target.id) ==> list == before.push(target),
    ensures
        exactly_named(list, requested, registry),
{
    let short = requested.drop_last();
    let raw = requested.last();
    let last = requested.len() - 1;
    lemma_first_named_id(before, raw);
    assert(requested[last] == raw);
    assert forall|k: int| 0 <= k < requested.len() implies exists|i: int|
        0 <= i < list.len() && (#[trigger] list[i]).id == #[trigger] requested[k] by {
        if k < last {
            assert(requested[k] == short[k]);
            let i = choose|i: int|
                0 <= i < before.len() && (#[trigger] before[i]).id == short[k];
            assert(list[i].id == requested[k]);
        } else if names(before, target.id) {
            let named = first_named(before, raw)->0;
            let i = choose|i: int| 0 <= i < before.len() && before[i] == named;
            assert(list[i].id == raw);
        } else {
            assert(list[before.len() as int].id == raw);
        }
    }
    assert forall|i: int| 0 <= i < list.len() implies registry.contains(#[trigger] list[i]) by {
        if i < before.len() {
            assert(list[i] == before[i]);
        }
    }
    assert forall|i: int| 0 <= i < list.len() implies requested.contains(
        (#[trigger] list[i]).id,
    ) by {
        if i < before.len() {
            assert(list[i] == before[i]);
            assert(short.contains(before[i].id));
            let k = choose|k: int| 0 <= k < short.len() && short[k] == before[i].id;
            assert(requested[k] == before[i].id);
        } else {
            assert(requested[last] == list[i].id);
        }
    }
    assert forall|i: int, j: int, m: int|
        0 <= i < j < list.len() && 0 <= m < requested.len() && (#[trigger] list[j]).id
            == #[trigger] requested[m] implies requested.take(m).contains(
        (#[trigger] list[i]).id,
    ) by {
        assert(list[i] == before[i]);
        assert(short.contains(before[i].id));
        if m < last {
            assert(requested[m] == short[m]);
            if j < before.len() {
                assert(list[j] == before[j]);
                assert(short.take(m).contains(before[i].id));
                assert(short.take(m) =~= requested.take(m));
            } else {
                let i2 = choose|i2: int|
                    0 <= i2 < before.len() && (#[trigger] before[i2]).id == short[m];
                assert(before[i2].id == raw);
            }
        } else {
            assert(requested.take(m) =~= short);
        }
    }
}

/// The cutoff lies exactly the age before now; there is none without an age,
/// or where that instant cannot be told.
pub proof fn law_cutoff(age: Duration, now: Timestamp)
    ensures
        cutoff_before(None, now) is None,
        age.seconds <= 0 ==> cutoff_before(Some(age), now) == Some(now),
        age.seconds > 0 ==> match cutoff_before(Some(age), now) {
            Some(cutoff) => cutoff.secs + age.seconds == now.secs && cutoff.nanos == now.nanos,
            None => now.secs - age.seconds < i64::MIN,
        },
{
}

} // verus!
