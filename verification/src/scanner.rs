//! Traversal rules and assembly of the disk-usage tree.
//!
//! Traversal is always exhaustive: [`ScanOptions::max_depth`] limits how much
//! of the finished tree is *displayed*, not how much is measured, so summary
//! totals stay correct regardless of depth.

use crate::cli::VizArgs;
use crate::errors::{DiskPulseError, IoError, IoErrorKind, ParseError, ScanError};
use crate::models::{
    lemma_children, total_apparent, total_dirs, total_files, total_size, DirectoryNode, Node,
    ScanResult, ScanSummary,
};
use crate::path::{components, joined, PathBuf, Platform};
use crate::planning::{parse_size_option, size_option};
use crate::text::{chars_of, lowered, same_text, to_lowered};
use crate::util::{physical_disk_size, Metadata};
use vstd::hash_map::StringHashMap;
use vstd::prelude::*;
use vstd::string::*;

verus! {

// ---------------------------------------------------------------------------
// Options
// ---------------------------------------------------------------------------
/// Key used to order entries in visualizations.
#[derive(Debug, Clone, Copy, PartialEq, Eq, Structural)]
pub enum SortCriterion {
    Size,
    Count,
    Name,
}

/// The criterion that a word stands for, whatever its case.
pub open spec fn criterion_named(raw: Seq<char>) -> Option<SortCriterion> {
    if lowered(raw) == "size"@ {
        Some(SortCriterion::Size)
    } else if lowered(raw) == "count"@ {
        Some(SortCriterion::Count)
    } else if lowered(raw) == "name"@ {
        Some(SortCriterion::Name)
    } else {
        None
    }
}

impl SortCriterion {
    pub fn parse(raw: &str) -> (out: Result<Self, ParseError>)
        ensures
            match out {
                Ok(criterion) => criterion_named(raw@) == Some(criterion),
                Err(ParseError::InvalidSortField(field)) => criterion_named(raw@) is None
                    && field@ == lowered(raw@),
                Err(_) => false,
            },
    {
        let word = to_lowered(raw);
        if same_text(word.as_str(), "size") {
            Ok(SortCriterion::Size)
        } else if same_text(word.as_str(), "count") {
            Ok(SortCriterion::Count)
        } else if same_text(word.as_str(), "name") {
            Ok(SortCriterion::Name)
        } else {
            Err(ParseError::InvalidSortField(word))
        }
    }
}

/// Tunables for a traversal, derived from [`VizArgs`].
#[derive(Debug, Clone, Copy, PartialEq, Eq)]
pub struct ScanOptions {
    /// How deep the *rendered* tree may go; measurement always covers
    /// everything.
    pub max_depth: usize,
    /// Drop entries whose accumulated size is below this threshold.
    pub min_size: Option<u64>,
    /// Keep only the largest N children at every level.
    pub top_n: Option<usize>,
    /// Report logical file lengths instead of allocated blocks.
    pub apparent_size: bool,
    /// Traverse heavyweight dev directories too.
    pub no_ignore: bool,
    /// Include hidden files and directories.
    pub include_hidden: bool,
    /// Prune subtrees living on a different device than the scan root.
    pub one_file_system: bool,
    pub sort_by: SortCriterion,
}

impl From<&VizArgs> for ScanOptions {
    fn from(args: &VizArgs) -> (out: Self)
        ensures
            out.max_depth == args.depth,
            match out.min_size {
                Some(bytes) => size_option(args.min_size) == Some(bytes as nat),
                None => size_option(args.min_size) is None,
            },
            out.top_n == Some(args.top),
            out.apparent_size == args.apparent_size,
            out.no_ignore == args.no_ignore,
            out.include_hidden == args.hidden,
            out.one_file_system == args.one_file_system,
            out.sort_by == SortCriterion::Count <==> lowered(args.sort@) == "count"@,
            out.sort_by == SortCriterion::Name <==> lowered(args.sort@) == "name"@,
    {
        proof {
            law_criterion_words(args.sort@);
        }
        let sort_by = match SortCriterion::parse(args.sort.as_str()) {
            Ok(criterion) => criterion,
            Err(_) => SortCriterion::Size,
        };
        ScanOptions {
            max_depth: args.depth,
            min_size: parse_size_option(&args.min_size),
            top_n: Some(args.top),
            apparent_size: args.apparent_size,
            no_ignore: args.no_ignore,
            include_hidden: args.hidden,
            one_file_system: args.one_file_system,
            sort_by,
        }
    }
}

impl vstd::std_specs::convert::FromSpecImpl<&VizArgs> for ScanOptions {
    open spec fn obeys_from_spec() -> bool {
        true
    }

    open spec fn from_spec(args: &VizArgs) -> Self {
        ScanOptions {
            max_depth: args.depth,
            min_size: match size_option(args.min_size) {
                Some(bytes) => Some(bytes as u64),
                None => None,
            },
            top_n: Some(args.top),
            apparent_size: args.apparent_size,
            no_ignore: args.no_ignore,
            include_hidden: args.hidden,
            one_file_system: args.one_file_system,
            sort_by: match criterion_named(args.sort@) {
                Some(criterion) => criterion,
                None => SortCriterion::Size,
            },
        }
    }
}

// ---------------------------------------------------------------------------
// Name rules
// ---------------------------------------------------------------------------
/// Directory names skipped by default during traversal.
///
/// These are development artifacts that dwarf regular content and are almost
/// never what a user is hunting for; `--no-ignore` includes them.
pub open spec fn ignored_name(name: Seq<char>) -> bool {
    ||| name == ".git"@
    ||| name == "node_modules"@
    ||| name == "target"@
    ||| name == ".venv"@
    ||| name == "venv"@
    ||| name == "env"@
    ||| name == ".tox"@
    ||| name == ".next"@
    ||| name == ".nuxt"@
    ||| name == ".output"@
    ||| name == "dist"@
    ||| name == "build"@
    ||| name == "Pods"@
    ||| name == ".gradle"@
    ||| name == "__pycache__"@
}

pub fn is_ignored_name(name: &str) -> (yes: bool)
    ensures
        yes == ignored_name(name@),
{
    same_text(name, ".git") || same_text(name, "node_modules") || same_text(name, "target")
        || same_text(name, ".venv") || same_text(name, "venv") || same_text(name, "env")
        || same_text(name, ".tox") || same_text(name, ".next") || same_text(name, ".nuxt")
        || same_text(name, ".output") || same_text(name, "dist") || same_text(name, "build")
        || same_text(name, "Pods") || same_text(name, ".gradle") || same_text(name, "__pycache__")
}

/// Whether `name` is that of a hidden entry.
pub open spec fn hidden_name(name: Seq<char>) -> bool {
    name.len() > 0 && name[0] == '.'
}

/// Whether `text` matches the glob `pattern`: `*` stands for any characters,
/// `?` for exactly one, anything else for itself.
pub open spec fn glob(pattern: Seq<char>, text: Seq<char>) -> bool
    decreases pattern.len(), text.len(),
{
    if pattern.len() == 0 {
        text.len() == 0
    } else if pattern[0] == '*' {
        glob(pattern.skip(1), text) || (text.len() > 0 && glob(pattern, text.skip(1)))
    } else {
        text.len() > 0 && (pattern[0] == '?' || pattern[0] == text[0]) && glob(
            pattern.skip(1),
            text.skip(1),
        )
    }
}

/// Whether `text` matches the glob `pattern`.
pub fn matches_glob(pattern: &str, text: &str) -> (yes: bool)
    ensures
        yes == glob(pattern@, text@),
{
    let pat = chars_of(pattern);
    let txt = chars_of(text);
    // `row[j]` tells whether the pattern from `i` on matches the text from
    // `j` on.
    let mut row: Vec<bool> = Vec::new();
    let n = txt.len();
    let mut j: usize = 0;
    while j < n
        invariant
            j <= n == txt@.len(),
            row@ == Seq::new(j as nat, |k: int| false),
        decreases n - j,
    {
        row.push(false);
        assert(row@ =~= Seq::new((j + 1) as nat, |k: int| false));
        j += 1;
    }
    row.push(true);
    let mut i: usize = pat.len();
    assert forall|k: int| 0 <= k <= n implies #[trigger] row@[k] == glob(
        pat@.skip(i as int),
        txt@.skip(k),
    ) by {
        assert(pat@.skip(i as int).len() == 0);
    }
    while i > 0
        invariant
            i <= pat@.len(),
            n == txt@.len(),
            row@.len() == n + 1,
            forall|k: int|
                0 <= k <= n ==> #[trigger] row@[k] == glob(pat@.skip(i as int), txt@.skip(k)),
        decreases i,
    {
        i -= 1;
        let c = pat[i];
        let ghost rest = pat@.skip(i as int);
        let ghost next = row@;
        assert(rest[0] == c);
        assert(rest.skip(1) =~= pat@.skip(i + 1));
        let mut fresh: Vec<bool> = row.clone();
        assert(fresh@ =~= row@);
        let mut k: usize = n + 1;
        while k > 0
            invariant
                k <= n + 1,
                n == txt@.len(),
                row@ == next,
                row@.len() == n + 1,
                fresh@.len() == n + 1,
                rest.len() > 0,
                rest[0] == c,
                forall|m: int|
                    0 <= m <= n ==> #[trigger] next[m] == glob(rest.skip(1), txt@.skip(m)),
                forall|m: int| k <= m <= n ==> #[trigger] fresh@[m] == glob(rest, txt@.skip(m)),
            decreases k,
        {
            k -= 1;
            let ghost here = txt@.skip(k as int);
            let hit = if c == '*' {
                row[k] || (k < n && fresh[k + 1])
            } else {
                k < n && (c == '?' || c == txt[k]) && row[k + 1]
            };
            proof {
                if k < n {
                    assert(here.skip(1) =~= txt@.skip(k + 1));
                    assert(here[0] == txt@[k as int]);
                }
                assert(next[k as int] == glob(rest.skip(1), here));
            }
            fresh.set(k, hit);
        }
        row = fresh;
    }
    assert(pat@.skip(0) =~= pat@);
    assert(txt@.skip(0) =~= txt@);
    row[0]
}

// ---------------------------------------------------------------------------
// Judging entries
// ---------------------------------------------------------------------------
/// One entry as the walk came by it, links not followed.
#[derive(Debug)]
pub struct WalkFacts {
    /// Levels below the scan root, which itself is at 0.
    pub depth: usize,
    pub name: String,
    /// The path below the scan root.
    pub relative: String,
    pub is_dir: bool,
    /// The entry's own metadata, where it could be read.
    pub meta: Option<Metadata>,
    /// A directory whose entries could not be read.
    pub unreadable: bool,
}

/// What becomes of an entry.
#[derive(Debug, Clone, Copy, PartialEq, Eq, Structural)]
pub struct Judgement {
    pub keep: bool,
    /// Failures to be counted.
    pub errors: usize,
    /// Bytes allocated on disk.
    pub allocated: u64,
    /// Logical bytes.
    pub logical: u64,
}

impl WalkFacts {
    /// Whether one of the globs `exclude` matches the entry's name or its
    /// path below the scan root.
    pub open spec fn excluded(self, exclude: Seq<String>) -> bool {
        exists|i: int|
            0 <= i < exclude.len() && (glob(#[trigger] exclude[i]@, self.name@) || glob(
                exclude[i]@,
                self.relative@,
            ))
    }

    /// Whether the name rules leave this entry out. The scan root itself is
    /// exempt: walking a target literally named `.cache` or `node_modules`
    /// must not prune the root.
    pub open spec fn filtered(self, options: ScanOptions, exclude: Seq<String>) -> bool {
        self.depth > 0 && ((!options.include_hidden && hidden_name(self.name@)) || (
        !options.no_ignore && self.is_dir && ignored_name(self.name@)) || self.excluded(exclude))
    }

    /// Whether the entry must be left out because it lies on another device,
    /// or because that cannot be told.
    pub open spec fn off_device(self, options: ScanOptions, root_dev: Option<u64>) -> bool {
        options.one_file_system && self.is_dir && (match self.meta {
            Some(meta) => meta.device != root_dev,
            None => true,
        })
    }

    /// What becomes of this entry. Unreadable entries and directories are
    /// counted, not fatal.
    pub open spec fn judged(
        self,
        options: ScanOptions,
        exclude: Seq<String>,
        root_dev: Option<u64>,
    ) -> (bool, nat) {
        let seen: nat = if self.unreadable {
            1
        } else {
            0
        };
        let blind: nat = if self.meta is None {
            1
        } else {
            0
        };
        if self.filtered(options, exclude) {
            (false, seen)
        } else if self.off_device(options, root_dev) {
            (false, seen + blind)
        } else {
            (true, seen + blind)
        }
    }
}

fn is_excluded(facts: &WalkFacts, exclude: &Vec<String>) -> (yes: bool)
    ensures
        yes == facts.excluded(exclude@),
{
    let mut i: usize = 0;
    while i < exclude.len()
        invariant
            i <= exclude@.len(),
            forall|j: int|
                0 <= j < i ==> !(glob(#[trigger] exclude@[j]@, facts.name@) || glob(
                    exclude@[j]@,
                    facts.relative@,
                )),
        decreases exclude.len() - i,
    {
        if matches_glob(exclude[i].as_str(), facts.name.as_str()) || matches_glob(
            exclude[i].as_str(),
            facts.relative.as_str(),
        ) {
            assert(glob(exclude@[i as int]@, facts.name@) || glob(
                exclude@[i as int]@,
                facts.relative@,
            ));
            return true;
        }
        i += 1;
    }
    false
}

/// Decide whether an entry is kept, and what it weighs.
pub fn judge_entry(
    facts: &WalkFacts,
    options: &ScanOptions,
    exclude: &Vec<String>,
    root_dev: Option<u64>,
) -> (out: Judgement)
    requires
        facts.meta matches Some(meta) ==> meta.wf(),
    ensures
        (out.keep, out.errors as nat) == facts.judged(*options, exclude@, root_dev),
        out.keep && facts.meta is Some ==> out.allocated == facts.meta->0.physical()
            && out.logical == facts.meta->0.len,
        !out.keep || facts.meta is None ==> out.allocated == 0 && out.logical == 0,
{
    let mut errors: usize = 0;
    if facts.unreadable {
        errors = errors + 1;
    }
    if facts.depth > 0 {
        let name = chars_of(facts.name.as_str());
        let hidden = name.len() > 0 && name[0] == '.';
        if (!options.include_hidden && hidden) || (!options.no_ignore && facts.is_dir
            && is_ignored_name(facts.name.as_str())) || is_excluded(facts, exclude) {
            return Judgement { keep: false, errors, allocated: 0, logical: 0 };
        }
    }
    match &facts.meta {
        Some(meta) => {
            if options.one_file_system && facts.is_dir {
                let same = match (crate::util::device_id(meta), root_dev) {
                    (Some(a), Some(b)) => a == b,
                    (None, None) => true,
                    _ => false,
                };
                if !same {
                    return Judgement { keep: false, errors, allocated: 0, logical: 0 };
                }
            }
            Judgement {
                keep: true,
                errors,
                allocated: physical_disk_size(meta),
                logical: meta.len,
            }
        },
        None => Judgement {
            keep: !(options.one_file_system && facts.is_dir),
            errors: errors + 1,
            allocated: 0,
            logical: 0,
        },
    }
}

// ---------------------------------------------------------------------------
// Assembly
// ---------------------------------------------------------------------------
/// A kept entry awaiting placement in the result tree.
#[derive(Debug)]
pub struct FlatEntry {
    /// The directory that the entry was found in.
    pub parent: PathBuf,
    pub name: String,
    /// Bytes allocated on disk.
    pub allocated: u64,
    /// Logical bytes.
    pub logical: u64,
    pub is_dir: bool,
}

/// The entries of a scan, and how they are read.
pub struct Listing {
    pub entries: Seq<FlatEntry>,
    pub platform: Platform,
    /// Logical bytes count as the size.
    pub apparent_size: bool,
}

/// The positions, among the first `n`, of the entries found in `path`.
pub open spec fn places(entries: Seq<FlatEntry>, path: Seq<char>, n: nat) -> Seq<int>
    decreases n,
{
    if n == 0 || n > entries.len() {
        Seq::empty()
    } else {
        let before = places(entries, path, (n - 1) as nat);
        if entries[n - 1].parent@ == path {
            before.push(n - 1)
        } else {
            before
        }
    }
}

/// `node` with all of `list` added as children, in order.
pub open spec fn adopted(node: Node, list: Seq<Node>) -> Node
    decreases list.len(),
{
    if list.len() == 0 {
        node
    } else {
        adopted(node, list.drop_last()).with_child(list.last())
    }
}

impl Listing {
    /// The location of entry `i`.
    pub open spec fn location(self, i: int) -> Seq<char> {
        joined(self.platform, self.entries[i].parent@, self.entries[i].name@)
    }

    /// The nodes of the entries found in `path`, in the order of the listing,
    /// each with its own subtree. `room` bounds the nesting: there are never
    /// more levels than entries.
    pub open spec fn children_of(self, path: Seq<char>, room: nat) -> Seq<Node>
        decreases room, 0nat,
    {
        if room == 0 {
            Seq::empty()
        } else {
            let at = places(self.entries, path, self.entries.len());
            Seq::new(at.len(), |k: int| self.entry_node(at[k], (room - 1) as nat))
        }
    }

    /// The node of entry `i`. Directories contribute no bytes of their own;
    /// their aggregates grow purely from file descendants.
    pub open spec fn entry_node(self, i: int, room: nat) -> Node
        decreases room, 1nat,
    {
        let e = self.entries[i];
        let bare = Node::leaf(e.name@, self.location(i), e.is_dir);
        if e.is_dir {
            adopted(bare, self.children_of(self.location(i), room))
        } else {
            Node {
                size: if self.apparent_size {
                    e.logical as nat
                } else {
                    e.allocated as nat
                },
                apparent_size: e.logical as nat,
                ..bare
            }
        }
    }
}

impl Node {
    /// Every aggregate of this tree fits in 64 bits.
    pub open spec fn tree_fits(self) -> bool
        decreases self,
    {
        &&& self.aggregates_fit()
        &&& forall|i: int| 0 <= i < self.children.len() ==> (#[trigger] self.children[i]).tree_fits()
    }
}

/// The sum of what `list` brings.
pub proof fn lemma_adopted(node: Node, list: Seq<Node>)
    ensures
        adopted(node, list) == (Node {
            size: node.size + total_size(list),
            apparent_size: node.apparent_size + total_apparent(list),
            file_count: node.file_count + total_files(list),
            dir_count: node.dir_count + total_dirs(list),
            children: node.children + list,
            ..node
        }),
    decreases list.len(),
{
    if list.len() == 0 {
        assert(node.children + list =~= node.children);
    } else {
        lemma_adopted(node, list.drop_last());
        assert((node.children + list.drop_last()).push(list.last()) =~= node.children + list);
    }
}

proof fn lemma_totals_prefix(list: Seq<Node>, k: int)
    requires
        0 <= k <= list.len(),
    ensures
        total_size(list.take(k)) <= total_size(list),
        total_apparent(list.take(k)) <= total_apparent(list),
        total_files(list.take(k)) <= total_files(list),
        total_dirs(list.take(k)) <= total_dirs(list),
    decreases list.len() - k,
{
    if k == list.len() {
        assert(list.take(k) =~= list);
    } else {
        lemma_totals_prefix(list, k + 1);
        assert(list.take(k + 1).drop_last() =~= list.take(k));
    }
}

/// The entries found in each directory, by the directory's path.
struct Groups {
    index: StringHashMap<usize>,
    lists: Vec<Vec<usize>>,
}

/// The positions in a list.
spec fn positions(list: Seq<usize>) -> Seq<int> {
    list.map_values(|i: usize| i as int)
}

impl Groups {
    /// The first `n` entries are grouped.
    spec fn groups(&self, entries: Seq<FlatEntry>, n: nat) -> bool {
        let lists = self.lists@;
        &&& forall|path: Seq<char>|
            #![trigger self.index@.contains_key(path)]
            if self.index@.contains_key(path) {
                &&& self.index@[path] < lists.len()
                &&& positions(lists[self.index@[path] as int]@) == places(entries, path, n)
            } else {
                places(entries, path, n).len() == 0
            }
        &&& forall|a: Seq<char>, b: Seq<char>|
            #![trigger self.index@[a], self.index@[b]]
            self.index@.contains_key(a) && self.index@.contains_key(b) && self.index@[a]
                == self.index@[b] ==> a == b
        &&& forall|g: int|
            #![trigger lists[g]]
            0 <= g < lists.len() ==> forall|k: int|
                0 <= k < lists[g]@.len() ==> (#[trigger] lists[g]@[k]) < n
    }
}

/// Group the entries by the directory they were found in, each group in the
/// order of the listing.
fn collect_groups(entries: &Vec<FlatEntry>) -> (out: Groups)
    ensures
        out.groups(entries@, entries@.len()),
{
    let mut out = Groups { index: StringHashMap::new(), lists: Vec::new() };
    let mut i: usize = 0;
    while i < entries.len()
        invariant
            i <= entries@.len(),
            out.groups(entries@, i as nat),
        decreases entries.len() - i,
    {
        let ghost before = out;
        let key = &entries[i].parent;
        let ghost path = key@;
        match out.index.get(key.text.as_str()) {
            Some(g) => {
                let g = *g;
                let ghost old_lists = out.lists@;
                assert(before.index@.contains_key(path));
                out.lists[g].push(i);
                proof {
                    let n = (i + 1) as nat;
                    assert(out.index@ == before.index@);
                    assert(out.lists@[g as int]@ =~= old_lists[g as int]@.push(i));
                    assert(positions(out.lists@[g as int]@) =~= positions(
                        old_lists[g as int]@,
                    ).push(i as int));
                    assert forall|q: Seq<char>|
                        #![trigger out.index@.contains_key(q)]
                        if out.index@.contains_key(q) {
                            &&& out.index@[q] < out.lists@.len()
                            &&& positions(out.lists@[out.index@[q] as int]@) == places(
                                entries@,
                                q,
                                n,
                            )
                        } else {
                            places(entries@, q, n).len() == 0
                        } by {
                        assert(before.index@.contains_key(q) == out.index@.contains_key(q));
                        if out.index@.contains_key(q) && q != path {
                            assert(before.index@[q] != before.index@[path]);
                            assert(out.lists@[out.index@[q] as int]
                                == old_lists[out.index@[q] as int]);
                        }
                    }
                    assert forall|h: int| #![trigger out.lists@[h]]
                        0 <= h < out.lists@.len() implies forall|k: int|
                        0 <= k < out.lists@[h]@.len() ==> (#[trigger] out.lists@[h]@[k]) < n by {
                        if h != g {
                            assert(out.lists@[h] == old_lists[h]);
                        } else {
                            assert forall|k: int| 0 <= k < out.lists@[h]@.len() implies (
                            #[trigger] out.lists@[h]@[k]) < n by {
                                if k < old_lists[h]@.len() {
                                    assert(out.lists@[h]@[k] == old_lists[h]@[k]);
                                }
                            }
                        }
                    }
                    assert(out.groups(entries@, n));
                }
            },
            None => {
                let ghost old_lists = out.lists@;
                let fresh = out.lists.len();
                let mut list: Vec<usize> = Vec::new();
                list.push(i);
                out.lists.push(list);
                out.index.insert(key.text.clone(), fresh);
                proof {
                    let n = (i + 1) as nat;
                    assert(!before.index@.contains_key(path));
                    assert(positions(out.lists@[fresh as int]@) =~= seq![i as int]);
                    assert(places(entries@, path, i as nat) =~= Seq::empty());
                    assert forall|q: Seq<char>|
                        #![trigger out.index@.contains_key(q)]
                        if out.index@.contains_key(q) {
                            &&& out.index@[q] < out.lists@.len()
                            &&& positions(out.lists@[out.index@[q] as int]@) == places(
                                entries@,
                                q,
                                n,
                            )
                        } else {
                            places(entries@, q, n).len() == 0
                        } by {
                        assert(before.index@.contains_key(q) == (out.index@.contains_key(q) && q
                            != path));
                        if q != path && out.index@.contains_key(q) {
                            assert(out.lists@[out.index@[q] as int]
                                == old_lists[out.index@[q] as int]);
                        } else if q == path {
                            assert(places(entries@, q, n) =~= seq![i as int]);
                        }
                    }
                    assert forall|a: Seq<char>, b: Seq<char>|
                        #![trigger out.index@[a], out.index@[b]]
                        out.index@.contains_key(a) && out.index@.contains_key(b) && out.index@[a]
                            == out.index@[b] implies a == b by {
                        assert(before.index@.contains_key(a) == (out.index@.contains_key(a) && a
                            != path));
                        assert(before.index@.contains_key(b) == (out.index@.contains_key(b) && b
                            != path));
                        if a != path && b != path {
                            assert(before.index@[a] == out.index@[a] && before.index@[b]
                                == out.index@[b]);
                        }
                    }
                    assert forall|h: int| #![trigger out.lists@[h]]
                        0 <= h < out.lists@.len() implies forall|k: int|
                        0 <= k < out.lists@[h]@.len() ==> (#[trigger] out.lists@[h]@[k]) < n by {
                        if h != fresh {
                            assert(out.lists@[h] == old_lists[h]);
                        }
                    }
                    assert(out.groups(entries@, n));
                }
            },
        }
        i += 1;
    }
    out
}

/// A listing at hand.
struct Reading<'a> {
    entries: &'a Vec<FlatEntry>,
    platform: Platform,
    apparent_size: bool,
}

impl Reading<'_> {
    spec fn listing(&self) -> Listing {
        Listing {
            entries: self.entries@,
            platform: self.platform,
            apparent_size: self.apparent_size,
        }
    }
}

/// `list` can be added to `node` without any aggregate leaving 64 bits.
spec fn adoptable(node: Node, list: Seq<Node>) -> bool {
    &&& adopted(node, list).aggregates_fit()
    &&& forall|i: int| 0 <= i < list.len() ==> (#[trigger] list[i]).tree_fits()
}

proof fn lemma_adopted_fits(node: Node, list: Seq<Node>)
    requires
        node.children.len() == 0,
        adoptable(node, list),
    ensures
        adopted(node, list).tree_fits(),
{
    lemma_adopted(node, list);
    let out = adopted(node, list);
    assert(out.children =~= list);
}

proof fn lemma_not_adoptable(node: Node, list: Seq<Node>, k: int)
    requires
        node.children.len() == 0,
        0 < k <= list.len(),
        !list[k - 1].tree_fits() || !adopted(node, list.take(k)).aggregates_fit(),
    ensures
        !adoptable(node, list),
        !adopted(node, list).tree_fits(),
{
    lemma_adopted(node, list);
    lemma_adopted(node, list.take(k));
    lemma_totals_prefix(list, k);
    assert(adopted(node, list).children =~= list);
    if !list[k - 1].tree_fits() {
        assert(adopted(node, list).children[k - 1] == list[k - 1]);
    }
}

/// Add `child` to `node` where every aggregate then fits in 64 bits.
fn try_add_child(node: &mut DirectoryNode, child: DirectoryNode) -> (fits: bool)
    ensures
        fits == old(node)@.with_child(child@).aggregates_fit(),
        fits ==> final(node)@ == old(node)@.with_child(child@),
{
    let below: u64 = if child.is_dir {
        1
    } else {
        0
    };
    let dirs = match node.dir_count.checked_add(child.dir_count) {
        Some(sum) => sum.checked_add(below),
        None => None,
    };
    if node.size.checked_add(child.size).is_none() || node.apparent_size.checked_add(
        child.apparent_size,
    ).is_none() || node.file_count.checked_add(child.file_count).is_none() || dirs.is_none() {
        return false;
    }
    node.add_child(child);
    true
}

/// Materialize `node`'s subtree from the grouped flat entries.
///
/// Entries are keyed by parent path, so assembly is immune to the walker's
/// completion order across directories. Tells whether every aggregate fits in
/// 64 bits.
fn assemble_children(node: &mut DirectoryNode, reading: &Reading, groups: &Groups, room: usize) -> (fits:
    bool)
    requires
        groups.groups(reading.entries@, reading.entries@.len()),
        old(node)@.children.len() == 0,
    ensures
        fits == adoptable(
            old(node)@,
            reading.listing().children_of(old(node)@.path, room as nat),
        ),
        fits ==> final(node)@ == adopted(
            old(node)@,
            reading.listing().children_of(old(node)@.path, room as nat),
        ),
    decreases room,
{
    let ghost start = node@;
    let ghost listing = reading.listing();
    let ghost list = listing.children_of(start.path, room as nat);
    if room == 0 {
        return true;
    }
    let ghost at = places(reading.entries@, start.path, reading.entries@.len());
    let g = match groups.index.get(node.path.text.as_str()) {
        Some(g) => *g,
        None => {
            assert(!groups.index@.contains_key(start.path));
            assert(list =~= Seq::empty());
            return true;
        },
    };
    assert(groups.index@.contains_key(start.path));
    let group = &groups.lists[g];
    assert(positions(group@) == at);
    let mut k: usize = 0;
    assert(list.take(0) =~= Seq::empty());
    while k < group.len()
        invariant
            room > 0,
            start == old(node)@,
            k <= group@.len(),
            groups.groups(reading.entries@, reading.entries@.len()),
            g < groups.lists@.len(),
            *group == groups.lists@[g as int],
            positions(group@) == at,
            listing == reading.listing(),
            at == places(reading.entries@, start.path, reading.entries@.len()),
            list == listing.children_of(start.path, room as nat),
            start.children.len() == 0,
            node@ == adopted(start, list.take(k as int)),
            forall|j: int| 0 <= j < k ==> (#[trigger] list[j]).tree_fits(),
        decreases group.len() - k,
    {
        let i = group[k];
        proof {
            assert(at[k as int] == i as int);
            assert(list[k as int] == listing.entry_node(i as int, (room - 1) as nat));
            assert(list.take(k + 1).drop_last() =~= list.take(k as int));
            assert(list.take(k + 1).last() == list[k as int]);
        }
        let e = &reading.entries[i];
        let path = e.parent.join(e.name.as_str(), reading.platform);
        let mut child = DirectoryNode::new(e.name.clone(), path, e.is_dir);
        let ghost bare = child@;
        assert(bare == Node::leaf(e.name@, listing.location(i as int), e.is_dir));
        if !e.is_dir {
            child.size = if reading.apparent_size {
                e.logical
            } else {
                e.allocated
            };
            child.apparent_size = e.logical;
            assert(child@.children =~= bare.children);
            assert(child@ =~= list[k as int]);
            assert(child@.tree_fits());
        } else {
            let ghost sub = listing.children_of(bare.path, (room - 1) as nat);
            if !assemble_children(&mut child, reading, groups, room - 1) {
                proof {
                    lemma_child_unfit(bare, sub);
                    lemma_not_adoptable(start, list, k + 1);
                }
                return false;
            }
            proof {
                lemma_adopted_fits(bare, sub);
            }
        }
        assert(child@ == list[k as int]);
        let ghost value = child@;
        if !try_add_child(node, child) {
            proof {
                assert(adopted(start, list.take(k + 1)) == adopted(
                    start,
                    list.take(k as int),
                ).with_child(value));
                lemma_not_adoptable(start, list, k + 1);
            }
            return false;
        }
        k += 1;
    }
    assert(list.take(k as int) =~= list);
    assert(node@.aggregates_fit());
    true
}

proof fn lemma_child_unfit(bare: Node, sub: Seq<Node>)
    requires
        bare.children.len() == 0,
        !adoptable(bare, sub),
    ensures
        !adopted(bare, sub).tree_fits(),
{
    lemma_adopted(bare, sub);
    let out = adopted(bare, sub);
    assert(out.children =~= sub);
    if out.tree_fits() {
        assert forall|i: int| 0 <= i < sub.len() implies (#[trigger] sub[i]).tree_fits() by {
            assert(out.children[i] == sub[i]);
        }
    }
}

// ---------------------------------------------------------------------------
// The scan
// ---------------------------------------------------------------------------
/// What a walk brought home.
#[derive(Debug)]
pub struct ScanReading {
    pub platform: Platform,
    /// Where the scan root really lies.
    pub canonical: PathBuf,
    /// Whether the scan root is a directory.
    pub is_dir: bool,
    pub meta: Metadata,
    /// The kept entries below the root, in the order of the walk.
    pub entries: Vec<FlatEntry>,
    /// Failures along the way.
    pub errors_count: usize,
    pub duration_ms: u64,
}

/// Where a scan broke off.
#[derive(Debug)]
pub enum ScanFailure {
    /// The scan root could not be resolved.
    Resolve(IoError),
    /// The scan root could not be read.
    Read(IoError),
}

impl ScanReading {
    /// The name that the root is shown by: that of its last component, or
    /// the whole path where that is none.
    pub open spec fn root_name(self) -> Seq<char> {
        let c = components(self.platform, self.canonical@);
        if c.len() > 0 && c.last() is Normal {
            c.last()->Normal_0
        } else {
            self.canonical@
        }
    }

    /// The root by itself.
    pub open spec fn root_node(self, options: ScanOptions) -> Node {
        let bare = Node::leaf(self.root_name(), self.canonical@, self.is_dir);
        if self.is_dir {
            bare
        } else {
            Node {
                size: if options.apparent_size {
                    self.meta.len as nat
                } else {
                    self.meta.physical()
                },
                apparent_size: self.meta.len as nat,
                ..bare
            }
        }
    }

    pub open spec fn listing(self, options: ScanOptions) -> Listing {
        Listing {
            entries: self.entries@,
            platform: self.platform,
            apparent_size: options.apparent_size,
        }
    }

    /// The whole tree, before anything is hidden.
    pub open spec fn tree(self, options: ScanOptions) -> Node {
        adopted(
            self.root_node(options),
            self.listing(options).children_of(self.canonical@, self.entries@.len()),
        )
    }

    /// Only directories hold entries, and every aggregate fits in 64 bits.
    pub open spec fn wf(self, options: ScanOptions) -> bool {
        &&& self.is_dir || self.entries@.len() == 0
        &&& self.tree(options).tree_fits()
    }
}

impl ScanOptions {
    /// The part of a tree that these options display.
    pub open spec fn displayed(self, tree: Node) -> Node {
        let large = match self.min_size {
            Some(bytes) => tree.filtered(bytes as nat),
            None => tree,
        };
        let ordered = large.sorted(self.sort_by);
        let top = match self.top_n {
            Some(n) => ordered.retained(n as nat),
            None => ordered,
        };
        top.truncated(self.max_depth as nat)
    }
}

/// The whole tree, where every aggregate fits in 64 bits.
fn build_tree(reading: &ScanReading, options: &ScanOptions) -> (out: Option<DirectoryNode>)
    ensures
        match out {
            Some(root) => root@ == reading.tree(*options) && root@.tree_fits(),
            None => !reading.tree(*options).tree_fits(),
        },
{
    let name = match reading.canonical.file_name(reading.platform) {
        Some(name) => name,
        None => reading.canonical.text.clone(),
    };
    let mut root = DirectoryNode::new(name, reading.canonical.clone(), reading.is_dir);
    let ghost bare = root@;
    assert(bare == Node::leaf(reading.root_name(), reading.canonical@, reading.is_dir));
    let ghost list = reading.listing(*options).children_of(
        reading.canonical@,
        reading.entries@.len(),
    );
    proof {
        lemma_adopted(reading.root_node(*options), list);
    }
    if !reading.is_dir {
        let logical = reading.meta.len;
        if !options.apparent_size {
            if let Some(blocks) = reading.meta.blocks {
                if blocks > u64::MAX / 512 {
                    return None;
                }
            }
        }
        root.size = if options.apparent_size {
            logical
        } else {
            physical_disk_size(&reading.meta)
        };
        root.apparent_size = logical;
        assert(root@.children =~= bare.children);
    }
    assert(root@ =~= reading.root_node(*options));
    let groups = collect_groups(&reading.entries);
    let view = Reading {
        entries: &reading.entries,
        platform: reading.platform,
        apparent_size: options.apparent_size,
    };
    assert(view.listing() == reading.listing(*options));
    let ghost start = root@;
    if assemble_children(&mut root, &view, &groups, reading.entries.len()) {
        proof {
            lemma_adopted_fits(start, list);
        }
        Some(root)
    } else {
        proof {
            lemma_child_unfit(start, list);
        }
        None
    }
}

/// Whether a reading is one of a directory, or of a file with nothing below
/// it, with every aggregate in 64 bits: what [`scan_path`] needs.
pub fn can_assemble(reading: &ScanReading, options: &ScanOptions) -> (yes: bool)
    ensures
        yes == reading.wf(*options),
{
    (reading.is_dir || reading.entries.len() == 0) && build_tree(reading, options).is_some()
}

impl Node {
    /// What keeps the tallies of this tree within 64 bits: only directories
    /// have children, and what they hide is accounted for.
    spec fn sound(self) -> bool
        decreases self,
    {
        &&& self.is_dir || self.children.len() == 0
        &&& self.is_dir ==> self.size == total_size(self.children) + self.pruned_size
        &&& self.size <= u64::MAX
        &&& self.pruned_size <= u64::MAX
        &&& self.children.len() + self.pruned_entries <= u64::MAX
        &&& forall|i: int| 0 <= i < self.children.len() ==> (#[trigger] self.children[i]).sound()
    }
}

proof fn lemma_sound_accounted(node: Node)
    requires
        node.sound(),
    ensures
        node.accounted(),
    decreases node,
{
    assert forall|i: int| 0 <= i < node.children.len() implies (
    #[trigger] node.children[i]).accounted() by {
        assert(node.children[i].sound());
        lemma_sound_accounted(node.children[i]);
    }
}

proof fn lemma_filter_counts(list: Seq<Node>, min_size: nat)
    ensures
        list.filter(|n: Node| n.size >= min_size).len() + list.filter(
            |n: Node| n.size < min_size,
        ).len() == list.len(),
    decreases list.len(),
{
    reveal(Seq::filter);
    if list.len() > 0 {
        lemma_filter_counts(list.drop_last(), min_size);
    }
}

proof fn lemma_sound_filtered(node: Node, min_size: nat)
    requires
        node.sound(),
    ensures
        node.filter_fits(min_size),
        node.filtered(min_size).sound(),
    decreases node,
{
    crate::models::law_filtered(node, min_size);
    let list = node.filtered_children(min_size);
    let keep = |n: Node| n.size >= min_size;
    let kept = list.filter(keep);
    lemma_filter_counts(list, min_size);
    assert forall|i: int| 0 <= i < node.children.len() implies (
    #[trigger] node.children[i]).filter_fits(min_size) && list[i].sound() by {
        assert(node.children[i].sound());
        lemma_sound_filtered(node.children[i], min_size);
        assert(list[i] == node.children[i].filtered(min_size));
    }
    assert forall|i: int| 0 <= i < kept.len() implies (#[trigger] kept[i]).sound() by {
        assert(kept.contains(kept[i]));
        list.lemma_filter_contains_rev(keep, kept[i]);
        let j = choose|j: int| 0 <= j < list.len() && list[j] == kept[i];
        assert(node.children[j].filter_fits(min_size) && list[j].sound());
    }
    if node.children.len() == 0 {
        reveal(Seq::filter);
        assert(list =~= Seq::empty());
    }
}

proof fn lemma_sound_sorted(node: Node, c: SortCriterion)
    requires
        node.sound(),
    ensures
        node.sorted(c).sound(),
    decreases node,
{
    lemma_sound_accounted(node);
    crate::models::law_sorted_accounted(node, c);
    let list = node.sorted_children(c);
    let out = crate::models::stable_sorted(c, list);
    crate::models::lemma_sorted_elements(c, list);
    assert forall|i: int| 0 <= i < out.len() implies (#[trigger] out[i]).sound() by {
        let j = choose|j: int| 0 <= j < list.len() && out[i] == list[j];
        assert(list[j] == node.children[j].sorted(c));
        assert(node.children[j].sound());
        lemma_sound_sorted(node.children[j], c);
    }
}

proof fn lemma_sound_retained(node: Node, n: nat)
    requires
        node.sound(),
    ensures
        node.retain_fits(n),
    decreases node,
{
    crate::models::law_retained(node, n);
    let kept = node.kept_count(n) as int;
    if node.children.len() == 0 {
        assert(node.children.skip(kept) =~= Seq::empty());
    }
    assert forall|i: int| 0 <= i < kept && i < node.children.len() implies (
    #[trigger] node.children[i]).retain_fits(n) by {
        assert(node.children[i].sound());
        lemma_sound_retained(node.children[i], n);
    }
}

/// A fresh tree is sound: nothing is hidden yet, and no list is longer than
/// memory.
proof fn lemma_fresh_sound(n: DirectoryNode)
    requires
        n@.aggregated(),
        n@.unpruned(),
        n@.tree_fits(),
    ensures
        n@.sound(),
    decreases n,
{
    lemma_children(n);
    assert(n.children.len() == n@.children.len());
    assert forall|i: int| 0 <= i < n@.children.len() implies (#[trigger] n@.children[i]).sound() by {
        assert(n@.children[i] == n.children@[i]@);
        assert(n@.children[i].aggregated() && n@.children[i].unpruned()
            && n@.children[i].tree_fits());
        assert(decreases_to!(n => n.children@[i]));
        lemma_fresh_sound(n.children@[i]);
    }
}

proof fn lemma_adopted_fresh(node: Node, list: Seq<Node>)
    requires
        node.is_dir,
        node.aggregated(),
        node.unpruned(),
        forall|i: int|
            0 <= i < list.len() ==> (#[trigger] list[i]).aggregated() && list[i].unpruned(),
    ensures
        adopted(node, list).aggregated(),
        adopted(node, list).unpruned(),
        adopted(node, list).is_dir,
    decreases list.len(),
{
    if list.len() > 0 {
        let short = list.drop_last();
        assert forall|i: int| 0 <= i < short.len() implies (#[trigger] short[i]).aggregated()
            && short[i].unpruned() by {
            assert(short[i] == list[i]);
        }
        lemma_adopted_fresh(node, short);
        assert(list[list.len() - 1].aggregated() && list[list.len() - 1].unpruned());
        let before = adopted(node, short);
        crate::models::law_with_child_aggregated(before, list.last());
        let out = before.with_child(list.last());
        assert forall|i: int| 0 <= i < out.children.len() implies (
        #[trigger] out.children[i]).unpruned() by {
            if i < before.children.len() {
                assert(out.children[i] == before.children[i]);
            }
        }
    }
}

proof fn lemma_listing_fresh(listing: Listing, path: Seq<char>, room: nat)
    ensures
        forall|k: int|
            0 <= k < listing.children_of(path, room).len() ==> (#[trigger] listing.children_of(
                path,
                room,
            )[k]).aggregated() && listing.children_of(path, room)[k].unpruned(),
    decreases room,
{
    if room > 0 {
        let list = listing.children_of(path, room);
        let at = places(listing.entries, path, listing.entries.len());
        let r = (room - 1) as nat;
        assert forall|k: int| 0 <= k < list.len() implies (#[trigger] list[k]).aggregated()
            && list[k].unpruned() by {
            let i = at[k];
            assert(list[k] == listing.entry_node(i, r));
            let e = listing.entries[i];
            let bare = Node::leaf(e.name@, listing.location(i), e.is_dir);
            if e.is_dir {
                lemma_listing_fresh(listing, listing.location(i), r);
                lemma_adopted_fresh(bare, listing.children_of(listing.location(i), r));
            }
        }
    }
}

/// The tree of a reading carries the totals of everything that was found, at
/// every level, and hides nothing.
pub proof fn law_tree_aggregates(reading: ScanReading, options: ScanOptions)
    requires
        reading.is_dir || reading.entries@.len() == 0,
    ensures
        reading.tree(options).aggregated(),
        reading.tree(options).unpruned(),
{
    let listing = reading.listing(options);
    let list = listing.children_of(reading.canonical@, reading.entries@.len());
    if reading.is_dir {
        lemma_listing_fresh(listing, reading.canonical@, reading.entries@.len());
        lemma_adopted_fresh(reading.root_node(options), list);
    } else {
        assert(list =~= Seq::empty());
    }
}

/// The error that a scan of `path` reports.
pub fn scan_failure(path: &PathBuf, failure: &ScanFailure) -> (out: DiskPulseError)
    ensures
        match *failure {
            ScanFailure::Resolve(error) => match error.kind {
                IoErrorKind::NotFound => out == DiskPulseError::Scan(
                    ScanError::PathNotFound(*path),
                ),
                IoErrorKind::PermissionDenied => out == DiskPulseError::Scan(
                    ScanError::PermissionDenied(*path),
                ),
                IoErrorKind::Other => out == DiskPulseError::Io(error),
            },
            ScanFailure::Read(error) => out == DiskPulseError::Io(error),
        },
{
    match failure {
        ScanFailure::Resolve(error) => match error.kind {
            IoErrorKind::NotFound => DiskPulseError::Scan(ScanError::PathNotFound(path.clone())),
            IoErrorKind::PermissionDenied => DiskPulseError::Scan(
                ScanError::PermissionDenied(path.clone()),
            ),
            IoErrorKind::Other => DiskPulseError::Io(error.clone()),
        },
        ScanFailure::Read(error) => DiskPulseError::Io(error.clone()),
    }
}

/// Package what a walk through `path` brought home as a [`ScanResult`].
pub fn scan_path(
    path: &PathBuf,
    options: &ScanOptions,
    reading: &Result<ScanReading, ScanFailure>,
) -> (out: Result<ScanResult, DiskPulseError>)
    requires
        *reading matches Ok(found) ==> found.wf(*options),
    ensures
        match *reading {
            Ok(found) => out matches Ok(result) && {
                let tree = found.tree(*options);
                &&& result.root@ == options.displayed(tree)
                &&& result.root@.runs_everywhere(options.sort_by)
                &&& result.summary.root_path@ == found.canonical@
                &&& result.summary.total_size == tree.size
                &&& result.summary.total_apparent_size == tree.apparent_size
                &&& result.summary.total_files == tree.file_count
                &&& result.summary.total_dirs == tree.dir_count
                &&& result.summary.duration_ms == found.duration_ms
                &&& result.summary.errors_count == found.errors_count
            },
            Err(ScanFailure::Resolve(error)) => match error.kind {
                IoErrorKind::NotFound => out == Err::<ScanResult, DiskPulseError>(
                    DiskPulseError::Scan(ScanError::PathNotFound(*path)),
                ),
                IoErrorKind::PermissionDenied => out == Err::<ScanResult, DiskPulseError>(
                    DiskPulseError::Scan(ScanError::PermissionDenied(*path)),
                ),
                IoErrorKind::Other => out == Err::<ScanResult, DiskPulseError>(
                    DiskPulseError::Io(error),
                ),
            },
            Err(ScanFailure::Read(error)) => out == Err::<ScanResult, DiskPulseError>(
                DiskPulseError::Io(error),
            ),
        },
{
    let found = match reading {
        Ok(found) => found,
        Err(failure) => {
            return Err(scan_failure(path, failure));
        },
    };
    let ghost tree = found.tree(*options);
    let mut root = build_tree(found, options).unwrap();
    proof {
        law_tree_aggregates(*found, *options);
        lemma_fresh_sound(root);
    }
    if let Some(min_size) = options.min_size {
        proof {
            lemma_sound_filtered(tree, min_size as nat);
        }
        root.filter_min_size(min_size);
    }
    proof {
        lemma_sound_sorted(root@, options.sort_by);
    }
    match options.sort_by {
        SortCriterion::Size => root.sort_by_size_descending(),
        SortCriterion::Count => root.sort_by_count_descending(),
        SortCriterion::Name => root.sort_by_name(),
    }
    if let Some(top_n) = options.top_n {
        proof {
            lemma_sound_retained(root@, top_n as nat);
        }
        root.retain_top_n(top_n);
    }
    root.truncate_depth(0, options.max_depth);
    proof {
        law_displayed_in_order(*options, tree);
    }
    let summary = ScanSummary {
        root_path: found.canonical.clone(),
        total_size: root.size,
        total_apparent_size: root.apparent_size,
        total_files: root.file_count,
        total_dirs: root.dir_count,
        duration_ms: found.duration_ms,
        errors_count: found.errors_count,
    };
    Ok(ScanResult { summary, root })
}

/// What is displayed never changes what is reported: whatever is hidden by
/// depth, size or number, and however it is ordered, the totals of the root
/// stay those of the whole tree.
pub proof fn law_totals_independent_of_view(options: ScanOptions, tree: Node)
    ensures
        options.displayed(tree).size == tree.size,
        options.displayed(tree).apparent_size == tree.apparent_size,
        options.displayed(tree).file_count == tree.file_count,
        options.displayed(tree).dir_count == tree.dir_count,
{
}

/// Nothing deeper than asked for is displayed.
pub proof fn law_displayed_depth(options: ScanOptions, tree: Node)
    ensures
        options.displayed(tree).no_deeper_than(options.max_depth as nat),
{
    let large = match options.min_size {
        Some(bytes) => tree.filtered(bytes as nat),
        None => tree,
    };
    let ordered = large.sorted(options.sort_by);
    let top = match options.top_n {
        Some(n) => ordered.retained(n as nat),
        None => ordered,
    };
    crate::models::law_truncated(top, options.max_depth as nat);
}

/// At every level of what is displayed, the entries run by the criterion that
/// is asked for: names ascend, numbers of entries and sizes descend.
pub proof fn law_displayed_in_order(options: ScanOptions, tree: Node)
    ensures
        options.displayed(tree).runs_everywhere(options.sort_by),
{
    let large = match options.min_size {
        Some(bytes) => tree.filtered(bytes as nat),
        None => tree,
    };
    let ordered = large.sorted(options.sort_by);
    let top = match options.top_n {
        Some(n) => ordered.retained(n as nat),
        None => ordered,
    };
    crate::models::law_sorted_runs(large, options.sort_by);
    if options.top_n is Some {
        crate::models::law_retained_first(ordered, options.top_n->0 as nat, options.sort_by);
    }
    crate::models::law_truncated_keeps(top, options.max_depth as nat, options.sort_by);
}

/// Nothing smaller than the minimum is displayed, and no more entries than
/// asked for at any level.
pub proof fn law_displayed_limits(options: ScanOptions, tree: Node)
    ensures
        options.min_size matches Some(bytes) ==> options.displayed(tree).nothing_below(
            bytes as nat,
        ),
        options.top_n matches Some(n) ==> options.displayed(tree).at_most(n as nat),
{
    let large = match options.min_size {
        Some(bytes) => tree.filtered(bytes as nat),
        None => tree,
    };
    let c = options.sort_by;
    let ordered = large.sorted(c);
    let n = match options.top_n {
        Some(n) => n as nat,
        None => 0,
    };
    let top = match options.top_n {
        Some(n) => ordered.retained(n as nat),
        None => ordered,
    };
    let depth = options.max_depth as nat;
    let min_size = match options.min_size {
        Some(bytes) => bytes as nat,
        None => 0,
    };
    crate::models::law_filtered(tree, min_size);
    crate::models::law_limits_kept(large, min_size, c, n, depth);
    crate::models::law_limits_kept(ordered, min_size, c, n, depth);
    crate::models::law_limits_kept(top, min_size, c, n, depth);
    crate::models::law_retained(ordered, n);
}

/// A limit on the number of entries shows the first of those that are shown
/// without it, in the same order.
pub proof fn law_top_shows_the_first(options: ScanOptions, tree: Node, n: usize, i: int)
    requires
        options.top_n == Some(n),
        options.max_depth > 0,
    ensures
        ({
            let all = (ScanOptions { top_n: None, ..options }).displayed(tree).children;
            let some = options.displayed(tree).children;
            &&& some.len() == (if n < all.len() {
                n as nat
            } else {
                all.len()
            })
            &&& 0 <= i < some.len() ==> {
                &&& some[i].name == all[i].name
                &&& some[i].path == all[i].path
                &&& some[i].size == all[i].size
                &&& some[i].file_count == all[i].file_count
                &&& some[i].dir_count == all[i].dir_count
                &&& some[i].is_dir == all[i].is_dir
            }
        }),
{
    let large = match options.min_size {
        Some(bytes) => tree.filtered(bytes as nat),
        None => tree,
    };
    let c = options.sort_by;
    let depth = options.max_depth as nat;
    let ordered = large.sorted(c);
    let top = ordered.retained(n as nat);
    crate::models::law_retained_first(ordered, n as nat, c);
    crate::models::law_truncated_keeps(top, depth, c);
    crate::models::law_truncated_keeps(ordered, depth, c);
    let all = ordered.truncated(depth).children;
    let some = top.truncated(depth).children;
    if 0 <= i < some.len() {
        assert(some[i].name == top.children[i].name);
        assert(top.children[i].name == ordered.children[i].name);
        assert(all[i].name == ordered.children[i].name);
    }
}

/// Every entry at the top is displayed or counted as hidden, and those counted
/// are as many as are too small where nothing else hides any.
pub proof fn law_displayed_or_counted(options: ScanOptions, tree: Node)
    requires
        options.max_depth > 0,
        tree.pruned_entries == 0,
    ensures
        options.displayed(tree).children.len() + options.displayed(tree).pruned_entries
            == tree.children.len(),
        options.top_n is None ==> options.displayed(tree).pruned_entries == match options.min_size {
            Some(bytes) => crate::models::smaller(tree.children, bytes as nat),
            None => 0,
        },
        tree.is_dir && tree.accounted() ==> total_size(options.displayed(tree).children)
            + options.displayed(tree).pruned_size == tree.size,
{
    let large = match options.min_size {
        Some(bytes) => tree.filtered(bytes as nat),
        None => tree,
    };
    let c = options.sort_by;
    let depth = options.max_depth as nat;
    let ordered = large.sorted(c);
    let n = match options.top_n {
        Some(n) => n as nat,
        None => 0,
    };
    let top = match options.top_n {
        Some(n) => ordered.retained(n as nat),
        None => ordered,
    };
    if options.min_size is Some {
        crate::models::law_filtered_counts(tree, options.min_size->0 as nat);
        crate::models::law_filtered(tree, options.min_size->0 as nat);
    }
    crate::models::law_limits_kept(large, 0, c, n, depth);
    crate::models::law_retained_first(ordered, n, c);
    crate::models::law_truncated_keeps(top, depth, c);
    if tree.is_dir && tree.accounted() {
        assert(large.accounted());
        crate::models::law_sorted_accounted(large, c);
        crate::models::law_retained(ordered, n);
        assert(top.accounted());
        crate::models::lemma_total_size_same(top.truncated(depth).children, top.children);
    }
}

/// Which entries a scan keeps, told by its options: hidden ones only on
/// request, the customary build and dependency directories only on request,
/// none that a glob excludes; the scan root always. Where the scan must stay
/// on its device, no directory that is not known to lie on it.
pub proof fn law_kept_entries(
    facts: WalkFacts,
    options: ScanOptions,
    exclude: Seq<String>,
    root_dev: Option<u64>,
)
    ensures
        ({
            let name = facts.name@;
            let hidden = name.len() > 0 && name[0] == '.';
            let heavy = {
                ||| name == ".git"@
                ||| name == "node_modules"@
                ||| name == "target"@
                ||| name == ".venv"@
                ||| name == "venv"@
                ||| name == "env"@
                ||| name == ".tox"@
                ||| name == ".next"@
                ||| name == ".nuxt"@
                ||| name == ".output"@
                ||| name == "dist"@
                ||| name == "build"@
                ||| name == "Pods"@
                ||| name == ".gradle"@
                ||| name == "__pycache__"@
            };
            let globbed = exists|i: int|
                0 <= i < exclude.len() && (glob(#[trigger] exclude[i]@, name) || glob(
                    exclude[i]@,
                    facts.relative@,
                ));
            let left_out = facts.depth > 0 && ((hidden && !options.include_hidden) || (heavy
                && facts.is_dir && !options.no_ignore) || globbed);
            let foreign = options.one_file_system && facts.is_dir && !(facts.meta is Some
                && facts.meta->0.device == root_dev);
            let out = facts.judged(options, exclude, root_dev);
            &&& out.0 == (!left_out && !foreign)
            &&& out.1 == (if facts.unreadable {
                1int
            } else {
                0
            }) + (if facts.meta is None && !left_out {
                1int
            } else {
                0
            })
        }),
{
}

/// A pattern without wildcards matches itself and nothing else.
pub proof fn law_glob_literal(pattern: Seq<char>, text: Seq<char>)
    requires
        forall|i: int|
            0 <= i < pattern.len() ==> (#[trigger] pattern[i]) != '*' && pattern[i] != '?',
    ensures
        glob(pattern, text) <==> pattern == text,
    decreases pattern.len(),
{
    if pattern.len() == 0 {
        assert(text.len() == 0 ==> pattern =~= text);
    } else {
        let rest = pattern.skip(1);
        assert(pattern[0] != '*' && pattern[0] != '?');
        assert forall|i: int| 0 <= i < rest.len() implies (#[trigger] rest[i]) != '*' && rest[i]
            != '?' by {
            assert(pattern[i + 1] != '*' && pattern[i + 1] != '?');
        }
        if text.len() > 0 {
            law_glob_literal(rest, text.skip(1));
            if pattern[0] == text[0] && rest == text.skip(1) {
                assert(pattern =~= seq![pattern[0]] + rest);
                assert(text =~= seq![text[0]] + text.skip(1));
            }
            if pattern == text {
                assert(rest == text.skip(1));
            }
        }
    }
}

/// A `*` before a pattern without wildcards matches every text that ends with
/// it; `*` alone matches everything.
pub proof fn law_glob_suffix(suffix: Seq<char>, text: Seq<char>)
    requires
        forall|i: int|
            0 <= i < suffix.len() ==> (#[trigger] suffix[i]) != '*' && suffix[i] != '?',
    ensures
        glob(seq!['*'] + suffix, text) <==> suffix.len() <= text.len() && text.skip(
            text.len() - suffix.len(),
        ) == suffix,
    decreases text.len(),
{
    let pattern = seq!['*'] + suffix;
    assert(pattern[0] == '*');
    assert(pattern.skip(1) =~= suffix);
    law_glob_literal(suffix, text);
    assert(suffix.len() == text.len() ==> text.skip(0) =~= text);
    if text.len() > 0 {
        law_glob_suffix(suffix, text.skip(1));
        if suffix.len() < text.len() {
            assert(text.skip(1).skip(text.len() - 1 - suffix.len()) =~= text.skip(
                text.len() - suffix.len(),
            ));
        }
    }
}

/// A `*` behind a pattern without wildcards matches every text that starts
/// with it.
pub proof fn law_glob_prefix(prefix: Seq<char>, text: Seq<char>)
    requires
        forall|i: int|
            0 <= i < prefix.len() ==> (#[trigger] prefix[i]) != '*' && prefix[i] != '?',
    ensures
        glob(prefix.push('*'), text) <==> prefix.len() <= text.len() && text.take(
            prefix.len() as int,
        ) == prefix,
    decreases prefix.len(),
{
    let pattern = prefix.push('*');
    if prefix.len() == 0 {
        let none = Seq::<char>::empty();
        law_glob_suffix(none, text);
        assert(pattern =~= seq!['*'] + none);
        assert(text.skip(text.len() as int) =~= none);
        assert(text.take(0) =~= prefix);
    } else {
        let rest = prefix.skip(1);
        assert(prefix[0] != '*' && prefix[0] != '?');
        assert(pattern[0] == prefix[0]);
        assert(pattern.skip(1) =~= rest.push('*'));
        assert forall|i: int| 0 <= i < rest.len() implies (#[trigger] rest[i]) != '*' && rest[i]
            != '?' by {
            assert(prefix[i + 1] != '*' && prefix[i + 1] != '?');
        }
        if text.len() > 0 {
            law_glob_prefix(rest, text.skip(1));
            if prefix.len() <= text.len() {
                let n = prefix.len() as int;
                assert(text.take(n).skip(1) =~= text.skip(1).take(n - 1));
                if text[0] == prefix[0] && text.skip(1).take(n - 1) == rest {
                    assert(text.take(n) =~= seq![text[0]] + text.skip(1).take(n - 1));
                    assert(prefix =~= seq![prefix[0]] + rest);
                }
                if text.take(n) == prefix {
                    assert(text.take(n)[0] == text[0]);
                }
            }
        }
    }
}

/// A `?` stands for exactly one character.
pub proof fn law_glob_one(pattern: Seq<char>, text: Seq<char>)
    ensures
        glob(seq!['?'] + pattern, text) <==> text.len() > 0 && glob(pattern, text.skip(1)),
{
    assert((seq!['?'] + pattern).skip(1) =~= pattern);
}

/// The words that name a criterion, whatever their case.
pub proof fn law_criterion_words(raw: Seq<char>)
    ensures
        lowered(raw) == "size"@ ==> criterion_named(raw) == Some(SortCriterion::Size),
        lowered(raw) == "count"@ ==> criterion_named(raw) == Some(SortCriterion::Count),
        lowered(raw) == "name"@ ==> criterion_named(raw) == Some(SortCriterion::Name),
        lowered(raw) != "size"@ && lowered(raw) != "count"@ && lowered(raw) != "name"@
            ==> criterion_named(raw) is None,
{
    reveal_strlit("size");
    reveal_strlit("count");
    reveal_strlit("name");
    assert("size"@[0] == 's' && "count"@[0] == 'c' && "name"@[0] == 'n');
}

proof fn lemma_places_found(entries: Seq<FlatEntry>, path: Seq<char>, n: nat)
    requires
        n <= entries.len(),
    ensures
        ({
            let at = places(entries, path, n);
            &&& forall|k: int|
                0 <= k < at.len() ==> 0 <= #[trigger] at[k] < n && entries[at[k]].parent@ == path
            &&& forall|j: int, k: int| 0 <= j < k < at.len() ==> #[trigger] at[j] < #[trigger] at[k]
            &&& forall|i: int|
                0 <= i < n && (#[trigger] entries[i]).parent@ == path ==> at.contains(i)
        }),
    decreases n,
{
    if n > 0 {
        let before = places(entries, path, (n - 1) as nat);
        let at = places(entries, path, n);
        lemma_places_found(entries, path, (n - 1) as nat);
        assert forall|i: int|
            0 <= i < n && (#[trigger] entries[i]).parent@ == path implies at.contains(i) by {
            if i == n - 1 {
                assert(at[at.len() - 1] == i);
            } else {
                assert(before.contains(i));
                let k = choose|k: int| 0 <= k < before.len() && before[k] == i;
                assert(at[k] == i);
            }
        }
    }
}

/// What a directory of the tree holds: a node for every entry that was found
/// in it and for no other, in the order of the listing. `at` tells which entry
/// each node stands for.
pub proof fn law_found_in(listing: Listing, path: Seq<char>, room: nat) -> (at: Seq<int>)
    requires
        room > 0,
    ensures
        ({
            let list = listing.children_of(path, room);
            &&& at.len() == list.len()
            &&& forall|j: int, k: int| 0 <= j < k < at.len() ==> #[trigger] at[j] < #[trigger] at[k]
            &&& forall|i: int|
                0 <= i < listing.entries.len() && (#[trigger] listing.entries[i]).parent@ == path
                    ==> at.contains(i)
            &&& forall|k: int|
                0 <= k < at.len() ==> {
                    &&& 0 <= #[trigger] at[k] < listing.entries.len()
                    &&& listing.entries[at[k]].parent@ == path
                    &&& list[k] == listing.entry_node(at[k], (room - 1) as nat)
                }
        }),
{
    lemma_places_found(listing.entries, path, listing.entries.len());
    places(listing.entries, path, listing.entries.len())
}

/// The node of an entry has its name and its location. A file counts as one,
/// with the bytes that the options ask for; a directory holds what was found
/// in it, and its bytes are theirs.
pub proof fn law_node_of_entry(listing: Listing, i: int, room: nat)
    ensures
        ({
            let e = listing.entries[i];
            let node = listing.entry_node(i, room);
            let path = joined(listing.platform, e.parent@, e.name@);
            let held = listing.children_of(path, room);
            &&& node.name == e.name@
            &&& node.path == path
            &&& node.is_dir == e.is_dir
            &&& !e.is_dir ==> {
                &&& node.children.len() == 0
                &&& node.file_count == 1
                &&& node.dir_count == 0
                &&& node.apparent_size == e.logical
                &&& listing.apparent_size ==> node.size == e.logical
                &&& !listing.apparent_size ==> node.size == e.allocated
            }
            &&& e.is_dir ==> {
                &&& node.children == held
                &&& node.size == total_size(held)
                &&& node.apparent_size == total_apparent(held)
                &&& node.file_count == total_files(held)
                &&& node.dir_count == total_dirs(held)
            }
        }),
{
    let e = listing.entries[i];
    let bare = Node::leaf(e.name@, listing.location(i), e.is_dir);
    if e.is_dir {
        let held = listing.children_of(listing.location(i), room);
        lemma_adopted(bare, held);
        assert(bare.children + held =~= held);
    }
}

/// The root of the tree is what was scanned: a directory with what was found
/// in it, or a file with its own bytes.
pub proof fn law_root_of_tree(reading: ScanReading, options: ScanOptions)
    requires
        reading.is_dir || reading.entries@.len() == 0,
    ensures
        ({
            let tree = reading.tree(options);
            let held = reading.listing(options).children_of(
                reading.canonical@,
                reading.entries@.len(),
            );
            &&& tree.path == reading.canonical@
            &&& tree.is_dir == reading.is_dir
            &&& reading.is_dir ==> tree.children == held
            &&& !reading.is_dir ==> {
                &&& tree.children.len() == 0
                &&& tree.apparent_size == reading.meta.len
                &&& options.apparent_size ==> tree.size == reading.meta.len
                &&& !options.apparent_size ==> tree.size == reading.meta.physical()
            }
        }),
{
    let root = reading.root_node(options);
    let held = reading.listing(options).children_of(reading.canonical@, reading.entries@.len());
    lemma_adopted(root, held);
    assert(root.children + held =~= held);
    if !reading.is_dir {
        assert(held =~= Seq::empty());
    }
}

} // verus!
