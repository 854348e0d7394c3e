//! Core domain models shared between the visualizer, cleaner and rendering.
//!
//! These types are pure data plus aggregation helpers: no I/O happens here.

use crate::path::PathBuf;
use crate::scanner::SortCriterion;
use crate::text::{is_less, lemma_text_less_total, lemma_text_less_transitive, text_less};
use crate::util::Timestamp;
use vstd::prelude::*;
use vstd::string::*;

verus! {

// ---------------------------------------------------------------------------
// File system & visualizer models
// ---------------------------------------------------------------------------
/// The kind of a file system entry.
#[derive(Debug, Clone, Copy, PartialEq, Eq, Structural)]
pub enum EntryKind {
    File,
    Directory,
    Symlink,
    Other,
}

/// A single file system entry observed during a scan.
#[derive(Debug, PartialEq)]
pub struct FileEntry {
    pub path: PathBuf,
    pub name: String,
    /// Allocated physical bytes (or apparent bytes, per scan mode).
    pub size: u64,
    /// Logical byte length reported by the file system.
    pub apparent_size: u64,
    pub kind: EntryKind,
    pub modified: Option<Timestamp>,
}

impl Clone for FileEntry {
    fn clone(&self) -> (out: Self)
        ensures
            out == *self,
    {
        FileEntry {
            path: self.path.clone(),
            name: self.name.clone(),
            size: self.size,
            apparent_size: self.apparent_size,
            kind: self.kind,
            modified: self.modified,
        }
    }
}

/// A node of the hierarchical disk-usage tree.
///
/// Aggregates are maintained incrementally: leaf file nodes carry
/// `file_count == 1` and directories grow through [`DirectoryNode::add_child`].
/// `dir_count` counts directories strictly below a node (excluding itself).
#[derive(Debug, PartialEq)]
pub struct DirectoryNode {
    pub name: String,
    pub path: PathBuf,
    /// Accumulated allocated size of this subtree.
    pub size: u64,
    /// Accumulated logical size of this subtree.
    pub apparent_size: u64,
    pub file_count: u64,
    pub dir_count: u64,
    pub is_dir: bool,
    pub children: Vec<DirectoryNode>,
    /// Siblings hidden at this level by display filters, counted as
    /// direct-child units. Purely presentational: excluded from every
    /// size/count aggregate above.
    pub pruned_entries: u64,
    /// Accumulated size of those hidden siblings.
    pub pruned_size: u64,
}

/// The mathematical value of a [`DirectoryNode`].
#[verifier::ext_equal]
pub struct Node {
    pub name: Seq<char>,
    pub path: Seq<char>,
    pub size: nat,
    pub apparent_size: nat,
    pub file_count: nat,
    pub dir_count: nat,
    pub is_dir: bool,
    pub children: Seq<Node>,
    pub pruned_entries: nat,
    pub pruned_size: nat,
}

impl DirectoryNode {
    /// The value of this node.
    pub open spec fn model(self) -> Node
        decreases self,
    {
        Node {
            name: self.name@,
            path: self.path@,
            size: self.size as nat,
            apparent_size: self.apparent_size as nat,
            file_count: self.file_count as nat,
            dir_count: self.dir_count as nat,
            is_dir: self.is_dir,
            children: Seq::new(
                self.children@.len(),
                |i: int|
                    if 0 <= i < self.children@.len() {
                        self.children@[i].model()
                    } else {
                        arbitrary()
                    },
            ),
            pruned_entries: self.pruned_entries as nat,
            pruned_size: self.pruned_size as nat,
        }
    }
}

impl View for DirectoryNode {
    type V = Node;

    open spec fn view(&self) -> Node {
        self.model()
    }
}

impl Clone for DirectoryNode {
    fn clone(&self) -> (out: Self)
        ensures
            out@ == self@,
        decreases self,
    {
        let mut children: Vec<DirectoryNode> = Vec::new();
        let mut i: usize = 0;
        while i < self.children.len()
            invariant
                i <= self.children@.len(),
                children@.len() == i,
                forall|j: int| 0 <= j < i ==> (#[trigger] children@[j])@ == self.children@[j]@,
            decreases self.children.len() - i,
        {
            assert(decreases_to!(*self => self.children@[i as int]));
            children.push((&self.children[i]).clone());
            i += 1;
        }
        let out = DirectoryNode {
            name: self.name.clone(),
            path: self.path.clone(),
            size: self.size,
            apparent_size: self.apparent_size,
            file_count: self.file_count,
            dir_count: self.dir_count,
            is_dir: self.is_dir,
            children,
            pruned_entries: self.pruned_entries,
            pruned_size: self.pruned_size,
        };
        assert(out@.children =~= self@.children);
        out
    }
}

/// The values of a list of nodes.
pub open spec fn nodes(list: Seq<DirectoryNode>) -> Seq<Node> {
    list.map_values(|n: DirectoryNode| n@)
}

/// The children of a node's value are the values of its children.
pub proof fn lemma_children(n: DirectoryNode)
    ensures
        n@.children == nodes(n.children@),
{
    assert(n@.children =~= nodes(n.children@));
}

/// Accumulated size of a list of nodes.
pub open spec fn total_size(list: Seq<Node>) -> nat
    decreases list.len(),
{
    if list.len() == 0 {
        0
    } else {
        total_size(list.drop_last()) + list.last().size
    }
}

/// Accumulated logical size of a list of nodes.
pub open spec fn total_apparent(list: Seq<Node>) -> nat
    decreases list.len(),
{
    if list.len() == 0 {
        0
    } else {
        total_apparent(list.drop_last()) + list.last().apparent_size
    }
}

/// Files in a list of nodes.
pub open spec fn total_files(list: Seq<Node>) -> nat
    decreases list.len(),
{
    if list.len() == 0 {
        0
    } else {
        total_files(list.drop_last()) + list.last().file_count
    }
}

/// Directories in a list of nodes, the listed ones included.
pub open spec fn total_dirs(list: Seq<Node>) -> nat
    decreases list.len(),
{
    if list.len() == 0 {
        0
    } else {
        total_dirs(list.drop_last()) + list.last().dir_count + (if list.last().is_dir {
            1nat
        } else {
            0
        })
    }
}

// ---------------------------------------------------------------------------
// Ordering
// ---------------------------------------------------------------------------
/// Whether `a` may stand before `b`: larger first, more entries first, or
/// alphabetically first; equals may stand either way.
pub open spec fn may_precede(c: SortCriterion, a: Node, b: Node) -> bool {
    match c {
        SortCriterion::Size => a.size >= b.size,
        SortCriterion::Count => a.item_count() >= b.item_count(),
        SortCriterion::Name => !text_less(b.name, a.name),
    }
}

/// `list` with `x` put behind everything that may stand before it.
pub open spec fn inserted(c: SortCriterion, list: Seq<Node>, x: Node) -> Seq<Node>
    decreases list.len(),
{
    if list.len() > 0 && !may_precede(c, list.last(), x) {
        inserted(c, list.drop_last(), x).push(list.last())
    } else {
        list.push(x)
    }
}

/// `list` in order; equals keep their order in `list`.
pub open spec fn stable_sorted(c: SortCriterion, list: Seq<Node>) -> Seq<Node>
    decreases list.len(),
{
    if list.len() == 0 {
        list
    } else {
        inserted(c, stable_sorted(c, list.drop_last()), list.last())
    }
}

/// Two ordered lists as one; of equals, those of `a` come first.
spec fn merged(c: SortCriterion, a: Seq<Node>, b: Seq<Node>) -> Seq<Node>
    decreases a.len() + b.len(),
{
    if a.len() == 0 {
        b
    } else if b.len() == 0 {
        a
    } else if !may_precede(c, a.last(), b.last()) {
        merged(c, a.drop_last(), b).push(a.last())
    } else {
        merged(c, a, b.drop_last()).push(b.last())
    }
}

/// The order is total.
proof fn lemma_order_total(c: SortCriterion, a: Node, b: Node)
    ensures
        may_precede(c, a, b) || may_precede(c, b, a),
{
    if c == SortCriterion::Name && text_less(a.name, b.name) && text_less(b.name, a.name) {
        lemma_text_less_transitive(a.name, b.name, a.name);
        crate::text::lemma_text_less_irreflexive(a.name);
    }
}

/// The order is transitive.
proof fn lemma_order_transitive(c: SortCriterion, a: Node, b: Node, d: Node)
    ensures
        may_precede(c, a, b) && may_precede(c, b, d) ==> may_precede(c, a, d),
        !may_precede(c, a, b) && !may_precede(c, b, d) ==> !may_precede(c, a, d),
        may_precede(c, a, b) && !may_precede(c, d, b) ==> !may_precede(c, d, a),
{
    if c == SortCriterion::Name {
        if !text_less(b.name, a.name) && !text_less(d.name, b.name) && text_less(d.name, a.name) {
            lemma_text_less_total(a.name, b.name);
            lemma_text_less_total(b.name, d.name);
            if a.name == b.name || b.name == d.name {
            } else {
                lemma_text_less_transitive(a.name, b.name, d.name);
                lemma_text_less_transitive(a.name, d.name, a.name);
                crate::text::lemma_text_less_irreflexive(a.name);
            }
        }
        if text_less(b.name, a.name) && text_less(d.name, b.name) {
            lemma_text_less_transitive(d.name, b.name, a.name);
        }
        if !text_less(b.name, a.name) && text_less(b.name, d.name) {
            lemma_text_less_total(a.name, b.name);
            if a.name != b.name {
                lemma_text_less_transitive(a.name, b.name, d.name);
            }
        }
    }
}

/// Inserting into the second of two lists and merging is merging first and
/// inserting then.
proof fn lemma_merge_insert(c: SortCriterion, a: Seq<Node>, b: Seq<Node>, x: Node)
    ensures
        merged(c, a, inserted(c, b, x)) == inserted(c, merged(c, a, b), x),
    decreases a.len() + b.len(),
{
    let m = merged(c, a, b);
    if a.len() == 0 {
    } else if b.len() > 0 && !may_precede(c, b.last(), x) {
        let z = inserted(c, b, x);
        assert(z.last() == b.last());
        assert(z.drop_last() =~= inserted(c, b.drop_last(), x));
        if !may_precede(c, a.last(), b.last()) {
            lemma_order_transitive(c, a.last(), b.last(), x);
            assert(m.last() == a.last());
            assert(m.drop_last() =~= merged(c, a.drop_last(), b));
            lemma_merge_insert(c, a.drop_last(), b, x);
        } else {
            assert(m.last() == b.last());
            assert(m.drop_last() =~= merged(c, a, b.drop_last()));
            lemma_merge_insert(c, a, b.drop_last(), x);
        }
    } else {
        let z = b.push(x);
        assert(inserted(c, b, x) == z);
        assert(z.last() == x);
        assert(z.drop_last() =~= b);
        if b.len() == 0 {
            assert(m == a);
            assert(merged(c, a, b) == a);
            if !may_precede(c, a.last(), x) {
                lemma_merge_insert(c, a.drop_last(), b, x);
                assert(merged(c, a.drop_last(), b) =~= a.drop_last());
            }
        } else {
            lemma_order_transitive(c, a.last(), b.last(), x);
            if !may_precede(c, a.last(), b.last()) {
                assert(m.last() == a.last());
                assert(m.drop_last() =~= merged(c, a.drop_last(), b));
            } else {
                assert(m.last() == b.last());
            }
            if !may_precede(c, a.last(), x) {
                lemma_merge_insert(c, a.drop_last(), b, x);
            }
        }
    }
}

/// Sorting two halves and merging them sorts the whole.
proof fn lemma_merge_sorted(c: SortCriterion, a: Seq<Node>, b: Seq<Node>)
    ensures
        merged(c, stable_sorted(c, a), stable_sorted(c, b)) == stable_sorted(c, a + b),
    decreases b.len(),
{
    if b.len() == 0 {
        assert(a + b =~= a);
        assert(stable_sorted(c, b) =~= b);
    } else {
        lemma_merge_sorted(c, a, b.drop_last());
        assert((a + b).drop_last() =~= a + b.drop_last());
        lemma_merge_insert(c, stable_sorted(c, a), stable_sorted(c, b.drop_last()), b.last());
    }
}

fn precedes(c: SortCriterion, a: &DirectoryNode, b: &DirectoryNode) -> (yes: bool)
    ensures
        yes == may_precede(c, a@, b@),
{
    match c {
        SortCriterion::Size => a.size >= b.size,
        SortCriterion::Count => a.file_count as u128 + a.dir_count as u128 >= b.file_count as u128
            + b.dir_count as u128,
        SortCriterion::Name => !is_less(b.name.as_str(), a.name.as_str()),
    }
}

/// Merges two ordered lists.
fn merge_nodes(c: SortCriterion, left: Vec<DirectoryNode>, right: Vec<DirectoryNode>) -> (out: Vec<
    DirectoryNode,
>)
    ensures
        nodes(out@) == merged(c, nodes(left@), nodes(right@)),
{
    let ghost whole = merged(c, nodes(left@), nodes(right@));
    let mut a = left;
    let mut b = right;
    let mut backwards: Vec<DirectoryNode> = Vec::new();
    assert(whole =~= merged(c, nodes(a@), nodes(b@)) + nodes(backwards@).reverse());
    while a.len() > 0 && b.len() > 0
        invariant
            whole == merged(c, nodes(a@), nodes(b@)) + nodes(backwards@).reverse(),
        decreases a.len() + b.len(),
    {
        let ghost done = nodes(backwards@);
        let ghost na = nodes(a@);
        let ghost nb = nodes(b@);
        assert(na.last() == a@.last()@ && nb.last() == b@.last()@);
        if !precedes(c, &a[a.len() - 1], &b[b.len() - 1]) {
            if let Some(node) = a.pop() {
                assert(nodes(a@) =~= na.drop_last());
                backwards.push(node);
                assert(nodes(backwards@) =~= done.push(na.last()));
                assert(whole =~= merged(c, nodes(a@), nodes(b@)) + nodes(backwards@).reverse());
            }
        } else {
            if let Some(node) = b.pop() {
                assert(nodes(b@) =~= nb.drop_last());
                backwards.push(node);
                assert(nodes(backwards@) =~= done.push(nb.last()));
                assert(whole =~= merged(c, nodes(a@), nodes(b@)) + nodes(backwards@).reverse());
            }
        }
    }
    let mut out = if a.len() == 0 {
        b
    } else {
        a
    };
    assert(nodes(out@) =~= merged(c, nodes(a@), nodes(b@)));
    while backwards.len() > 0
        invariant
            whole == nodes(out@) + nodes(backwards@).reverse(),
        decreases backwards.len(),
    {
        let ghost rest = nodes(backwards@);
        let ghost start = nodes(out@);
        if let Some(node) = backwards.pop() {
            assert(nodes(backwards@) =~= rest.drop_last());
            out.push(node);
            assert(nodes(out@) =~= start.push(rest.last()));
            assert(whole =~= nodes(out@) + nodes(backwards@).reverse());
        }
    }
    assert(whole =~= nodes(out@));
    out
}

/// Stable merge sort.
fn sort_nodes(c: SortCriterion, list: Vec<DirectoryNode>) -> (out: Vec<DirectoryNode>)
    ensures
        nodes(out@) == stable_sorted(c, nodes(list@)),
    decreases list.len(),
{
    let ghost all = nodes(list@);
    if list.len() <= 1 {
        proof {
            if list.len() == 1 {
                assert(all.drop_last() =~= Seq::<Node>::empty());
                assert(stable_sorted(c, all.drop_last()) =~= Seq::<Node>::empty());
                assert(stable_sorted(c, all) =~= all);
            }
        }
        return list;
    }
    let half = list.len() / 2;
    let mut left = list;
    let right = left.split_off(half);
    assert(all =~= nodes(left@) + nodes(right@));
    proof {
        lemma_merge_sorted(c, nodes(left@), nodes(right@));
    }
    let left = sort_nodes(c, left);
    let right = sort_nodes(c, right);
    merge_nodes(c, left, right)
}

// ---------------------------------------------------------------------------
// Tree operations, as values
// ---------------------------------------------------------------------------
impl Node {
    /// A node without children.
    pub open spec fn leaf(name: Seq<char>, path: Seq<char>, is_dir: bool) -> Node {
        Node {
            name,
            path,
            size: 0,
            apparent_size: 0,
            file_count: if is_dir {
                0
            } else {
                1
            },
            dir_count: 0,
            is_dir,
            children: Seq::empty(),
            pruned_entries: 0,
            pruned_size: 0,
        }
    }

    /// Total number of entries beneath this node.
    pub open spec fn item_count(self) -> nat {
        self.file_count + self.dir_count
    }

    /// This node with one more child, whose aggregates are folded in.
    pub open spec fn with_child(self, child: Node) -> Node {
        Node {
            size: self.size + child.size,
            apparent_size: self.apparent_size + child.apparent_size,
            file_count: self.file_count + child.file_count,
            dir_count: self.dir_count + child.dir_count + (if child.is_dir {
                1nat
            } else {
                0
            }),
            children: self.children.push(child),
            ..self
        }
    }

    /// The aggregates of this node fit in 64 bits.
    pub open spec fn aggregates_fit(self) -> bool {
        &&& self.size <= u64::MAX
        &&& self.apparent_size <= u64::MAX
        &&& self.file_count <= u64::MAX
        &&& self.dir_count <= u64::MAX
    }

    /// The pruning tallies of this node fit in 64 bits.
    pub open spec fn tallies_fit(self) -> bool {
        self.pruned_entries <= u64::MAX && self.pruned_size <= u64::MAX
    }

    /// The children of this node, each sorted.
    pub open spec fn sorted_children(self, c: SortCriterion) -> Seq<Node>
        decreases self, 0nat,
    {
        Seq::new(
            self.children.len(),
            |i: int|
                if 0 <= i < self.children.len() {
                    self.children[i].sorted(c)
                } else {
                    arbitrary()
                },
        )
    }

    /// This tree with the children of every node in order.
    pub open spec fn sorted(self, c: SortCriterion) -> Node
        decreases self, 1nat,
    {
        Node { children: stable_sorted(c, self.sorted_children(c)), ..self }
    }

    /// The children of this node, each filtered.
    pub open spec fn filtered_children(self, min_size: nat) -> Seq<Node>
        decreases self, 0nat,
    {
        Seq::new(
            self.children.len(),
            |i: int|
                if 0 <= i < self.children.len() {
                    self.children[i].filtered(min_size)
                } else {
                    arbitrary()
                },
        )
    }

    /// This tree without the nodes smaller than `min_size`, which are tallied
    /// at their parent. Aggregates keep reporting the whole tree.
    pub open spec fn filtered(self, min_size: nat) -> Node
        decreases self, 1nat,
    {
        let list = self.filtered_children(min_size);
        let dropped = list.filter(|n: Node| n.size < min_size);
        Node {
            children: list.filter(|n: Node| n.size >= min_size),
            pruned_entries: self.pruned_entries + dropped.len(),
            pruned_size: self.pruned_size + total_size(dropped),
            ..self
        }
    }

    /// Every tally of the filtered tree fits in 64 bits.
    pub open spec fn filter_fits(self, min_size: nat) -> bool
        decreases self,
    {
        &&& self.filtered(min_size).tallies_fit()
        &&& forall|i: int|
            0 <= i < self.children.len() ==> (#[trigger] self.children[i]).filter_fits(min_size)
    }

    /// The number of children that a limit of `n` leaves.
    pub open spec fn kept_count(self, n: nat) -> nat {
        if n < self.children.len() {
            n
        } else {
            self.children.len()
        }
    }

    /// This tree with only the first `n` children at every level; the others
    /// are tallied at their parent.
    pub open spec fn retained(self, n: nat) -> Node
        decreases self,
    {
        let kept = self.kept_count(n);
        let dropped = self.children.skip(kept as int);
        Node {
            children: Seq::new(
                kept,
                |i: int|
                    if 0 <= i < self.children.len() {
                        self.children[i].retained(n)
                    } else {
                        arbitrary()
                    },
            ),
            pruned_entries: self.pruned_entries + dropped.len(),
            pruned_size: self.pruned_size + total_size(dropped),
            ..self
        }
    }

    /// Every tally of the retained tree fits in 64 bits.
    pub open spec fn retain_fits(self, n: nat) -> bool
        decreases self,
    {
        &&& self.retained(n).tallies_fit()
        &&& forall|i: int|
            0 <= i < self.kept_count(n) && i < self.children.len() ==> (
            #[trigger] self.children[i]).retain_fits(n)
    }

    /// This tree cut off below `depth` levels.
    pub open spec fn truncated(self, depth: nat) -> Node
        decreases self,
    {
        let children = if depth == 0 {
            Seq::empty()
        } else {
            Seq::new(
                self.children.len(),
                |i: int|
                    if 0 <= i < self.children.len() {
                        self.children[i].truncated((depth - 1) as nat)
                    } else {
                        arbitrary()
                    },
            )
        };
        Node { children, ..self }
    }
}

// ---------------------------------------------------------------------------
// Tree operations
// ---------------------------------------------------------------------------
impl DirectoryNode {
    /// Creates an empty node. File nodes start with `file_count == 1`;
    /// directory nodes start with zeroed aggregates and no children.
    pub fn new(name: String, path: PathBuf, is_dir: bool) -> (out: Self)
        ensures
            out@ == Node::leaf(name@, path@, is_dir),
    {
        let out = DirectoryNode {
            name,
            path,
            size: 0,
            apparent_size: 0,
            file_count: if is_dir {
                0
            } else {
                1
            },
            dir_count: 0,
            is_dir,
            children: Vec::new(),
            pruned_entries: 0,
            pruned_size: 0,
        };
        assert(out@.children =~= Seq::<Node>::empty());
        out
    }

    /// Appends `child`, folding its aggregates into this node.
    pub fn add_child(&mut self, child: DirectoryNode)
        requires
            old(self)@.with_child(child@).aggregates_fit(),
        ensures
            final(self)@ == old(self)@.with_child(child@),
    {
        self.size = self.size + child.size;
        self.apparent_size = self.apparent_size + child.apparent_size;
        self.file_count = self.file_count + child.file_count;
        self.dir_count = self.dir_count + child.dir_count + (if child.is_dir {
            1
        } else {
            0
        });
        self.children.push(child);
        assert(self@.children =~= old(self)@.children.push(child@));
    }

    /// Total number of entries beneath this node (files + directories).
    pub fn item_total(&self) -> (total: u64)
        requires
            self@.item_count() <= u64::MAX,
        ensures
            total == self@.item_count(),
    {
        self.file_count + self.dir_count
    }

    /// Sorts the children of every node.
    pub fn sort_by(&mut self, c: SortCriterion)
        ensures
            final(self)@ == old(self)@.sorted(c),
        decreases *old(self),
    {
        let ghost before = self.children@;
        let mut i: usize = 0;
        while i < self.children.len()
            invariant
                i <= self.children@.len() == before.len(),
                before == old(self).children@,
                *self == (DirectoryNode { children: self.children, ..*old(self) }),
                forall|j: int| i <= j < before.len() ==> self.children@[j] == before[j],
                forall|j: int| 0 <= j < i ==> (#[trigger] self.children@[j])@ == before[j]@.sorted(c),
            decreases self.children.len() - i,
        {
            assert(decreases_to!(*old(self) => old(self).children@[i as int]));
            self.children[i].sort_by(c);
            i += 1;
        }
        let ghost list = nodes(self.children@);
        let mut taken: Vec<DirectoryNode> = Vec::new();
        std::mem::swap(&mut taken, &mut self.children);
        self.children = sort_nodes(c, taken);
        proof {
            assert(list =~= old(self)@.sorted_children(c));
            lemma_children(*self);
            assert(self@ =~= old(self)@.sorted(c));
        }
    }

    /// Recursively sorts children by accumulated size, largest first.
    /// The sort is stable, so equal sizes keep their insertion order.
    pub fn sort_by_size_descending(&mut self)
        ensures
            final(self)@ == old(self)@.sorted(SortCriterion::Size),
    {
        self.sort_by(SortCriterion::Size);
    }

    /// Recursively sorts children alphabetically by name.
    pub fn sort_by_name(&mut self)
        ensures
            final(self)@ == old(self)@.sorted(SortCriterion::Name),
    {
        self.sort_by(SortCriterion::Name);
    }

    /// Recursively sorts children by total entry count, highest first.
    pub fn sort_by_count_descending(&mut self)
        ensures
            final(self)@ == old(self)@.sorted(SortCriterion::Count),
    {
        self.sort_by(SortCriterion::Count);
    }

    /// Recursively drops children whose accumulated `size` is below
    /// `min_size`, tallying them in `pruned_entries`/`pruned_size`.
    ///
    /// Ancestor aggregates remain untouched: they continue to report the true
    /// totals of the underlying tree.
    pub fn filter_min_size(&mut self, min_size: u64)
        requires
            old(self)@.filter_fits(min_size as nat),
        ensures
            final(self)@ == old(self)@.filtered(min_size as nat),
        decreases *old(self),
    {
        let ghost before = self.children@;
        let ghost min = min_size as nat;
        let mut i: usize = 0;
        while i < self.children.len()
            invariant
                i <= self.children@.len() == before.len(),
                before == old(self).children@,
                min == min_size,
                old(self)@.filter_fits(min),
                *self == (DirectoryNode { children: self.children, ..*old(self) }),
                forall|j: int| i <= j < before.len() ==> self.children@[j] == before[j],
                forall|j: int|
                    0 <= j < i ==> (#[trigger] self.children@[j])@ == before[j]@.filtered(min),
            decreases self.children.len() - i,
        {
            assert(decreases_to!(*old(self) => old(self).children@[i as int]));
            assert(old(self)@.children[i as int].filter_fits(min));
            self.children[i].filter_min_size(min_size);
            i += 1;
        }
        let ghost list = nodes(self.children@);
        assert(list =~= old(self)@.filtered_children(min));
        let ghost keep = |n: Node| n.size >= min;
        let ghost drop = |n: Node| n.size < min;
        let mut source: Vec<DirectoryNode> = Vec::new();
        std::mem::swap(&mut source, &mut self.children);
        let mut backwards: Vec<DirectoryNode> = Vec::new();
        let ghost start = *self;
        proof {
            assert(list.skip(list.len() as int) =~= Seq::<Node>::empty());
            reveal(Seq::filter);
        }
        while source.len() > 0
            invariant
                min == min_size,
                list == old(self)@.filtered_children(min),
                old(self)@.filter_fits(min),
                keep == (|n: Node| n.size >= min),
                drop == (|n: Node| n.size < min),
                source@.len() <= list.len(),
                nodes(source@) == list.take(source@.len() as int),
                start == (DirectoryNode { children: start.children, ..*old(self) }),
                *self == (DirectoryNode {
                    pruned_entries: self.pruned_entries,
                    pruned_size: self.pruned_size,
                    ..start
                }),
                nodes(backwards@).reverse() == list.skip(source@.len() as int).filter(keep),
                self.pruned_entries == start.pruned_entries + list.skip(
                    source@.len() as int,
                ).filter(drop).len(),
                self.pruned_size == start.pruned_size + total_size(
                    list.skip(source@.len() as int).filter(drop),
                ),
            decreases source.len(),
        {
            let ghost n = source@.len() as int;
            let ghost done = nodes(backwards@);
            proof {
                lemma_filter_skip(list, n - 1, keep);
                lemma_filter_skip(list, n - 1, drop);
                lemma_filter_suffix_bounds(list, n - 1, drop);
                assert(nodes(source@)[n - 1] == list[n - 1]);
            }
            if let Some(child) = source.pop() {
                assert(nodes(source@) =~= list.take(n - 1));
                assert(child@ == list[n - 1]);
                if child.size >= min_size {
                    backwards.push(child);
                    assert(nodes(backwards@) =~= done.push(list[n - 1]));
                    assert(nodes(backwards@).reverse() =~= seq![list[n - 1]] + done.reverse());
                } else {
                    self.pruned_entries = self.pruned_entries + 1;
                    self.pruned_size = self.pruned_size + child.size;
                }
            }
        }
        assert(list.skip(0) =~= list);
        let mut kept: Vec<DirectoryNode> = Vec::new();
        while backwards.len() > 0
            invariant
                list.filter(keep) == nodes(kept@) + nodes(backwards@).reverse(),
            decreases backwards.len(),
        {
            let ghost rest = nodes(backwards@);
            let ghost done = nodes(kept@);
            if let Some(node) = backwards.pop() {
                assert(nodes(backwards@) =~= rest.drop_last());
                kept.push(node);
                assert(nodes(kept@) =~= done.push(rest.last()));
                assert(list.filter(keep) =~= nodes(kept@) + nodes(backwards@).reverse());
            }
        }
        assert(list.filter(keep) =~= nodes(kept@));
        self.children = kept;
        proof {
            lemma_children(*self);
        }
        assert(self@ =~= old(self)@.filtered(min));
    }

    /// Clears all children at depth `max_depth` and beyond.
    /// The root sits at `current_depth == 0`.
    pub fn truncate_depth(&mut self, current_depth: usize, max_depth: usize)
        ensures
            final(self)@ == old(self)@.truncated(
                if current_depth >= max_depth {
                    0
                } else {
                    (max_depth - current_depth) as nat
                },
            ),
        decreases *old(self),
    {
        if current_depth >= max_depth {
            self.children.clear();
            assert(self@.children =~= Seq::empty());
            return;
        }
        let ghost before = self.children@;
        let ghost below = (max_depth - current_depth - 1) as nat;
        let mut i: usize = 0;
        while i < self.children.len()
            invariant
                current_depth < max_depth,
                below == max_depth - current_depth - 1,
                i <= self.children@.len() == before.len(),
                before == old(self).children@,
                *self == (DirectoryNode { children: self.children, ..*old(self) }),
                forall|j: int| i <= j < before.len() ==> self.children@[j] == before[j],
                forall|j: int|
                    0 <= j < i ==> (#[trigger] self.children@[j])@ == before[j]@.truncated(below),
            decreases self.children.len() - i,
        {
            assert(decreases_to!(*old(self) => old(self).children@[i as int]));
            self.children[i].truncate_depth(current_depth + 1, max_depth);
            i += 1;
        }
        assert(self@.children =~= old(self)@.truncated((max_depth - current_depth) as nat).children);
    }

    /// Keeps only the first `n` children at every level, following each
    /// level's current order. Dropped children are tallied in
    /// `pruned_entries`/`pruned_size`.
    pub fn retain_top_n(&mut self, n: usize)
        requires
            old(self)@.retain_fits(n as nat),
        ensures
            final(self)@ == old(self)@.retained(n as nat),
        decreases *old(self),
    {
        let ghost before = self.children@;
        let ghost kept = old(self)@.kept_count(n as nat);
        proof {
            lemma_children(*self);
        }
        if self.children.len() > n {
            let dropped = self.children.split_off(n);
            let ghost gone = nodes(dropped@);
            assert(gone =~= old(self)@.children.skip(n as int));
            let mut sum: u64 = 0;
            let mut k: usize = 0;
            assert(gone.take(0) =~= Seq::empty());
            while k < dropped.len()
                invariant
                    k <= dropped@.len(),
                    gone == nodes(dropped@),
                    sum == total_size(gone.take(k as int)),
                    total_size(gone) <= u64::MAX,
                decreases dropped.len() - k,
            {
                proof {
                    lemma_total_size_prefix(gone, k + 1);
                    assert(gone.take(k + 1).drop_last() =~= gone.take(k as int));
                }
                sum = sum + dropped[k].size;
                k += 1;
            }
            assert(gone.take(gone.len() as int) =~= gone);
            self.pruned_entries = self.pruned_entries + dropped.len() as u64;
            self.pruned_size = self.pruned_size + sum;
        } else {
            assert(old(self)@.children.skip(kept as int) =~= Seq::<Node>::empty());
        }
        let ghost mid = *self;
        let mut i: usize = 0;
        while i < self.children.len()
            invariant
                i <= self.children@.len() == kept,
                kept == old(self)@.kept_count(n as nat) <= before.len(),
                before == old(self).children@,
                old(self)@.retain_fits(n as nat),
                *self == (DirectoryNode { children: self.children, ..mid }),
                forall|j: int| i <= j < kept ==> self.children@[j] == before[j],
                forall|j: int|
                    0 <= j < i ==> (#[trigger] self.children@[j])@ == before[j]@.retained(n as nat),
            decreases self.children.len() - i,
        {
            assert(decreases_to!(*old(self) => old(self).children@[i as int]));
            assert(old(self)@.children[i as int].retain_fits(n as nat));
            self.children[i].retain_top_n(n);
            i += 1;
        }
        assert(self@.children =~= old(self)@.retained(n as nat).children);
        assert(self@ =~= old(self)@.retained(n as nat));
    }
}

proof fn lemma_total_size_prefix(s: Seq<Node>, i: int)
    requires
        0 <= i <= s.len(),
    ensures
        total_size(s.take(i)) <= total_size(s),
    decreases s.len() - i,
{
    if i == s.len() {
        assert(s.take(i) =~= s);
    } else {
        lemma_total_size_prefix(s, i + 1);
        assert(s.take(i + 1).drop_last() =~= s.take(i));
    }
}

/// The size of two lists together.
pub proof fn lemma_total_size_concat(a: Seq<Node>, b: Seq<Node>)
    ensures
        total_size(a + b) == total_size(a) + total_size(b),
    decreases b.len(),
{
    if b.len() == 0 {
        assert(a + b =~= a);
    } else {
        assert((a + b).drop_last() =~= a + b.drop_last());
        lemma_total_size_concat(a, b.drop_last());
    }
}

/// Filtering one element more at the front.
proof fn lemma_filter_skip(s: Seq<Node>, i: int, pred: spec_fn(Node) -> bool)
    requires
        0 <= i < s.len(),
    ensures
        s.skip(i).filter(pred) == (if pred(s[i]) {
            seq![s[i]]
        } else {
            Seq::empty()
        }) + s.skip(i + 1).filter(pred),
        total_size(s.skip(i).filter(pred)) == total_size(s.skip(i + 1).filter(pred)) + (if pred(
            s[i],
        ) {
            s[i].size
        } else {
            0nat
        }),
{
    let head = seq![s[i]];
    let tail = s.skip(i + 1);
    assert(s.skip(i) =~= head + tail);
    Seq::filter_distributes_over_add(head, tail, pred);
    assert(head.filter(pred) =~= if pred(s[i]) {
        head
    } else {
        Seq::empty()
    }) by {
        reveal(Seq::filter);
        assert(head.drop_last() =~= Seq::<Node>::empty());
        assert(head.drop_last().filter(pred) =~= Seq::<Node>::empty());
    }
    lemma_total_size_concat(head.filter(pred), tail.filter(pred));
    if pred(s[i]) {
        assert(head.drop_last() =~= Seq::<Node>::empty());
        assert(total_size(head.drop_last()) == 0);
        assert(total_size(head) == s[i].size);
    }
}

/// A filtered suffix has no more elements and no more bytes than the filtered
/// whole.
proof fn lemma_filter_suffix_bounds(s: Seq<Node>, i: int, pred: spec_fn(Node) -> bool)
    requires
        0 <= i <= s.len(),
    ensures
        s.skip(i).filter(pred).len() <= s.filter(pred).len(),
        total_size(s.skip(i).filter(pred)) <= total_size(s.filter(pred)),
{
    assert(s =~= s.take(i) + s.skip(i));
    Seq::filter_distributes_over_add(s.take(i), s.skip(i), pred);
    lemma_total_size_concat(s.take(i).filter(pred), s.skip(i).filter(pred));
}

// ---------------------------------------------------------------------------
// Scan results
// ---------------------------------------------------------------------------
/// Aggregate statistics describing a completed scan.
#[derive(Debug, PartialEq)]
pub struct ScanSummary {
    pub root_path: PathBuf,
    pub total_size: u64,
    pub total_apparent_size: u64,
    pub total_files: u64,
    pub total_dirs: u64,
    pub duration_ms: u64,
    pub errors_count: usize,
}

impl Clone for ScanSummary {
    fn clone(&self) -> (out: Self)
        ensures
            out == *self,
    {
        ScanSummary {
            root_path: self.root_path.clone(),
            total_size: self.total_size,
            total_apparent_size: self.total_apparent_size,
            total_files: self.total_files,
            total_dirs: self.total_dirs,
            duration_ms: self.duration_ms,
            errors_count: self.errors_count,
        }
    }
}

/// Top-level payload produced by `diskpulse viz`.
#[derive(Debug, PartialEq)]
pub struct ScanResult {
    pub summary: ScanSummary,
    pub root: DirectoryNode,
}

impl Clone for ScanResult {
    fn clone(&self) -> (out: Self)
        ensures
            out.summary == self.summary,
            out.root@ == self.root@,
    {
        ScanResult { summary: self.summary.clone(), root: self.root.clone() }
    }
}

// ---------------------------------------------------------------------------
// Cleaner models
// ---------------------------------------------------------------------------
/// One file/folder identified for removal.
#[derive(Debug, PartialEq)]
pub struct CleanItem {
    pub path: PathBuf,
    pub size: u64,
    /// Registry identifier of the owning target (e.g. `"cargo-cache"`).
    pub target_id: String,
    /// Human-readable target name (e.g. `"Cargo Cache"`).
    pub target_name: String,
    pub is_dir: bool,
    pub modified: Option<Timestamp>,
}

impl Clone for CleanItem {
    fn clone(&self) -> (out: Self)
        ensures
            out == *self,
    {
        CleanItem {
            path: self.path.clone(),
            size: self.size,
            target_id: self.target_id.clone(),
            target_name: self.target_name.clone(),
            is_dir: self.is_dir,
            modified: self.modified,
        }
    }
}

/// Aggregated breakdown of planned work per target category.
#[derive(Debug, PartialEq)]
pub struct TargetSummary {
    pub target_id: String,
    pub target_name: String,
    /// Representative root path of the matched items (first item's location).
    pub path: PathBuf,
    pub item_count: usize,
    pub total_bytes: u64,
}

impl Clone for TargetSummary {
    fn clone(&self) -> (out: Self)
        ensures
            out == *self,
    {
        TargetSummary {
            target_id: self.target_id.clone(),
            target_name: self.target_name.clone(),
            path: self.path.clone(),
            item_count: self.item_count,
            total_bytes: self.total_bytes,
        }
    }
}

/// Produced before any deletion: the exact set of actions a run would take.
#[derive(Debug, PartialEq)]
pub struct CleanPlan {
    pub items: Vec<CleanItem>,
    pub targets: Vec<TargetSummary>,
    pub total_bytes: u64,
    pub total_items: usize,
    pub is_dry_run: bool,
    /// Removal must not cross mount points.
    pub one_file_system: bool,
}

impl Clone for CleanPlan {
    fn clone(&self) -> (out: Self)
        ensures
            out.items@ == self.items@,
            out.targets@ == self.targets@,
            out.total_bytes == self.total_bytes,
            out.total_items == self.total_items,
            out.is_dry_run == self.is_dry_run,
            out.one_file_system == self.one_file_system,
    {
        let items = self.items.clone();
        let targets = self.targets.clone();
        assert(items@ =~= self.items@);
        assert(targets@ =~= self.targets@);
        CleanPlan {
            items,
            targets,
            total_bytes: self.total_bytes,
            total_items: self.total_items,
            is_dry_run: self.is_dry_run,
            one_file_system: self.one_file_system,
        }
    }
}

/// Bytes of all `items` together.
pub open spec fn bytes_of(items: Seq<CleanItem>) -> nat
    decreases items.len(),
{
    if items.len() == 0 {
        0
    } else {
        bytes_of(items.drop_last()) + items.last().size as nat
    }
}

/// Tells the items that belong to target `id`.
pub open spec fn owned_by(id: Seq<char>) -> spec_fn(CleanItem) -> bool {
    |item: CleanItem| item.target_id@ == id
}

/// The items that belong to target `id`.
pub open spec fn of_target(items: Seq<CleanItem>, id: Seq<char>) -> Seq<CleanItem> {
    items.filter(owned_by(id))
}

impl TargetSummary {
    /// This is the breakdown of its target's share of `items`: named and
    /// located by the first of them, with their number and their bytes.
    pub open spec fn sums_up(self, items: Seq<CleanItem>) -> bool {
        let mine = of_target(items, self.target_id@);
        &&& mine.len() > 0
        &&& self.target_name@ == mine[0].target_name@
        &&& self.path@ == mine[0].path@
        &&& self.item_count == mine.len()
        &&& self.total_bytes == bytes_of(mine)
    }
}

/// `targets` breaks `items` down: one summary per target that owns an item,
/// ordered by identifier.
pub open spec fn breaks_down(targets: Seq<TargetSummary>, items: Seq<CleanItem>) -> bool {
    &&& forall|i: int, j: int|
        0 <= i < j < targets.len() ==> text_less(
            #[trigger] targets[i].target_id@,
            #[trigger] targets[j].target_id@,
        )
    &&& forall|i: int| 0 <= i < targets.len() ==> (#[trigger] targets[i]).sums_up(items)
    &&& forall|k: int|
        0 <= k < items.len() ==> exists|i: int|
            0 <= i < targets.len() && #[trigger] targets[i].target_id@
                == (#[trigger] items[k]).target_id@
}

proof fn lemma_of_target_push(items: Seq<CleanItem>, item: CleanItem, id: Seq<char>)
    ensures
        of_target(items.push(item), id) == (if item.target_id@ == id {
            of_target(items, id).push(item)
        } else {
            of_target(items, id)
        }),
        bytes_of(of_target(items.push(item), id)) == bytes_of(of_target(items, id)) + (
        if item.target_id@ == id {
            item.size as nat
        } else {
            0
        }),
{
    reveal(Seq::filter);
    assert(items.push(item).drop_last() =~= items);
    assert(of_target(items, id).push(item).drop_last() =~= of_target(items, id));
}

proof fn lemma_of_target_bounds(items: Seq<CleanItem>, id: Seq<char>)
    ensures
        of_target(items, id).len() <= items.len(),
        bytes_of(of_target(items, id)) <= bytes_of(items),
    decreases items.len(),
{
    reveal(Seq::filter);
    if items.len() > 0 {
        let short = items.drop_last();
        lemma_of_target_bounds(short, id);
        assert(items =~= short.push(items.last()));
        lemma_of_target_push(short, items.last(), id);
    }
}

proof fn lemma_bytes_prefix(items: Seq<CleanItem>, k: int)
    requires
        0 <= k <= items.len(),
    ensures
        bytes_of(items.take(k)) <= bytes_of(items),
    decreases items.len() - k,
{
    if k == items.len() {
        assert(items.take(k) =~= items);
    } else {
        lemma_bytes_prefix(items, k + 1);
        assert(items.take(k + 1).drop_last() =~= items.take(k));
    }
}

/// An unowned target identifier has no items.
proof fn lemma_unowned(targets: Seq<TargetSummary>, items: Seq<CleanItem>, id: Seq<char>)
    requires
        breaks_down(targets, items),
        forall|i: int| 0 <= i < targets.len() ==> (#[trigger] targets[i]).target_id@ != id,
    ensures
        of_target(items, id).len() == 0,
{
    broadcast use vstd::seq_lib::group_filter_ensures;

    let mine = of_target(items, id);
    if mine.len() > 0 {
        assert(mine.contains(mine[0]));
        items.lemma_filter_contains_rev(owned_by(id), mine[0]);
        let k = choose|k: int| 0 <= k < items.len() && items[k] == mine[0];
        assert(items[k].target_id@ == id);
        let i = choose|i: int|
            0 <= i < targets.len() && #[trigger] targets[i].target_id@ == items[k].target_id@;
        assert(targets[i].target_id@ != id);
    }
}

/// Adds one item to the breakdown of the items before it.
fn tally(targets: &mut Vec<TargetSummary>, item: &CleanItem, Ghost(before): Ghost<Seq<CleanItem>>)
    requires
        breaks_down(old(targets)@, before),
        before.len() < usize::MAX,
        bytes_of(before) + item.size <= u64::MAX,
    ensures
        breaks_down(final(targets)@, before.push(*item)),
{
    let ghost all = before.push(*item);
    let ghost start = targets@;
    let ghost id = item.target_id@;
    let mut pos: usize = 0;
    while pos < targets.len() && is_less(targets[pos].target_id.as_str(), item.target_id.as_str())
        invariant
            pos <= targets@.len(),
            targets@ == start,
            id == item.target_id@,
            forall|j: int| 0 <= j < pos ==> text_less(#[trigger] start[j].target_id@, id),
        decreases targets.len() - pos,
    {
        pos += 1;
    }
    proof {
        lemma_of_target_bounds(before, id);
        assert forall|x: Seq<char>| #[trigger] of_target(all, x) == of_target(before, x) || x
            == id by {
            lemma_of_target_push(before, *item, x);
        }
        lemma_of_target_push(before, *item, id);
        if pos < start.len() {
            lemma_text_less_total(start[pos as int].target_id@, id);
            assert forall|j: int| pos < j < start.len() implies text_less(
                start[pos as int].target_id@,
                #[trigger] start[j].target_id@,
            ) by {}
        }
        assert forall|j: int| 0 <= j < pos implies (#[trigger] start[j]).target_id@ != id by {
            crate::text::lemma_text_less_irreflexive(id);
        }
    }
    if pos < targets.len() && crate::text::same_text(
        targets[pos].target_id.as_str(),
        item.target_id.as_str(),
    ) {
        assert(start[pos as int].sums_up(before));
        targets[pos].item_count = targets[pos].item_count + 1;
        targets[pos].total_bytes = targets[pos].total_bytes + item.size;
        proof {
            let now = targets@;
            assert forall|i: int| 0 <= i < now.len() implies (#[trigger] now[i]).sums_up(all) by {
                if i != pos {
                    assert(now[i] == start[i] && start[i].sums_up(before));
                    if i > pos {
                        assert(text_less(start[pos as int].target_id@, start[i].target_id@));
                        crate::text::lemma_text_less_irreflexive(id);
                    }
                    assert(of_target(all, now[i].target_id@) == of_target(before, now[i].target_id@));
                }
            }
            assert forall|k: int| 0 <= k < all.len() implies exists|i: int|
                0 <= i < now.len() && #[trigger] now[i].target_id@ == (
                #[trigger] all[k]).target_id@ by {
                if k < before.len() {
                    assert(all[k] == before[k]);
                    let i = choose|i: int|
                        0 <= i < start.len() && #[trigger] start[i].target_id@
                            == before[k].target_id@;
                    assert(now[i].target_id@ == all[k].target_id@);
                } else {
                    assert(now[pos as int].target_id@ == id);
                }
            }
            assert forall|i: int, j: int| 0 <= i < j < now.len() implies text_less(
                #[trigger] now[i].target_id@,
                #[trigger] now[j].target_id@,
            ) by {
                assert(now[i].target_id@ == start[i].target_id@);
                assert(now[j].target_id@ == start[j].target_id@);
            }
        }
        return;
    }
    proof {
        assert forall|j: int| pos <= j < start.len() implies text_less(
            id,
            #[trigger] start[j].target_id@,
        ) by {
            if j > pos {
                lemma_text_less_transitive(
                    id,
                    start[pos as int].target_id@,
                    start[j].target_id@,
                );
            }
        }
        assert forall|j: int| 0 <= j < start.len() implies (#[trigger] start[j]).target_id@
            != id by {
            crate::text::lemma_text_less_irreflexive(id);
        }
        lemma_unowned(start, before, id);
    }
    let fresh = TargetSummary {
        target_id: item.target_id.clone(),
        target_name: item.target_name.clone(),
        path: item.path.clone(),
        item_count: 1,
        total_bytes: item.size,
    };
    targets.insert(pos, fresh);
    proof {
        let now = targets@;
        assert(of_target(all, id) =~= seq![*item]);
        assert(bytes_of(of_target(before, id)) == 0);
        assert forall|i: int| 0 <= i < now.len() implies (#[trigger] now[i]).sums_up(all) by {
            if i != pos {
                let old_i = if i < pos {
                    i
                } else {
                    i - 1
                };
                assert(now[i] == start[old_i] && start[old_i].sums_up(before));
                assert(of_target(all, now[i].target_id@) == of_target(before, now[i].target_id@));
            }
        }
        assert forall|k: int| 0 <= k < all.len() implies exists|i: int|
            0 <= i < now.len() && #[trigger] now[i].target_id@ == (
            #[trigger] all[k]).target_id@ by {
            if k < before.len() {
                assert(all[k] == before[k]);
                let i = choose|i: int|
                    0 <= i < start.len() && #[trigger] start[i].target_id@ == before[k].target_id@;
                let new_i = if i < pos {
                    i
                } else {
                    i + 1
                };
                assert(now[new_i].target_id@ == all[k].target_id@);
            } else {
                assert(now[pos as int].target_id@ == id);
            }
        }
        assert forall|i: int, j: int| 0 <= i < j < now.len() implies text_less(
            #[trigger] now[i].target_id@,
            #[trigger] now[j].target_id@,
        ) by {
            let old_i = if i < pos {
                i
            } else {
                i - 1
            };
            let old_j = if j < pos {
                j
            } else {
                j - 1
            };
            if i != pos {
                assert(now[i] == start[old_i]);
            }
            if j != pos {
                assert(now[j] == start[old_j]);
            }
        }
    }
}

impl CleanPlan {
    /// Build a plan from discovered items, computing totals and grouping the
    /// per-target breakdown automatically (summaries ordered by `target_id`).
    pub fn from_items(items: Vec<CleanItem>, is_dry_run: bool) -> (plan: Self)
        requires
            bytes_of(items@) <= u64::MAX,
        ensures
            plan.items@ == items@,
            plan.total_items == items@.len(),
            plan.total_bytes == bytes_of(items@),
            breaks_down(plan.targets@, items@),
            plan.is_dry_run == is_dry_run,
            !plan.one_file_system,
    {
        let total_items = items.len();
        let mut total_bytes: u64 = 0;
        let mut targets: Vec<TargetSummary> = Vec::new();
        let mut i: usize = 0;
        assert(items@.take(0) =~= Seq::<CleanItem>::empty());
        while i < items.len()
            invariant
                i <= items@.len(),
                bytes_of(items@) <= u64::MAX,
                total_bytes == bytes_of(items@.take(i as int)),
                breaks_down(targets@, items@.take(i as int)),
            decreases items.len() - i,
        {
            proof {
                lemma_bytes_prefix(items@, i + 1);
                assert(items@.take(i + 1).drop_last() =~= items@.take(i as int));
                assert(items@.take(i + 1) =~= items@.take(i as int).push(items@[i as int]));
            }
            tally(&mut targets, &items[i], Ghost(items@.take(i as int)));
            total_bytes = total_bytes + items[i].size;
            i += 1;
        }
        assert(items@.take(items@.len() as int) =~= items@);
        CleanPlan {
            items,
            targets,
            total_bytes,
            total_items,
            is_dry_run,
            one_file_system: false,
        }
    }
}

/// Outcome recorded for one planned item after execution.
#[derive(Debug, PartialEq, Eq)]
pub enum CleanItemStatus {
    Deleted,
    MovedToTrash,
    SkippedDryRun,
    Failed(String),
}

impl Clone for CleanItemStatus {
    fn clone(&self) -> (out: Self)
        ensures
            out == *self,
    {
        match self {
            CleanItemStatus::Deleted => CleanItemStatus::Deleted,
            CleanItemStatus::MovedToTrash => CleanItemStatus::MovedToTrash,
            CleanItemStatus::SkippedDryRun => CleanItemStatus::SkippedDryRun,
            CleanItemStatus::Failed(reason) => CleanItemStatus::Failed(reason.clone()),
        }
    }
}

impl CleanItemStatus {
    /// The label of this outcome.
    pub open spec fn label(self) -> Seq<char> {
        match self {
            CleanItemStatus::Deleted => "deleted"@,
            CleanItemStatus::MovedToTrash => "moved to trash"@,
            CleanItemStatus::SkippedDryRun => "skipped (dry run)"@,
            CleanItemStatus::Failed(reason) => "failed: "@ + reason@,
        }
    }

    pub fn to_string(&self) -> (text: String)
        ensures
            text@ == self.label(),
    {
        match self {
            CleanItemStatus::Deleted => "deleted".to_string(),
            CleanItemStatus::MovedToTrash => "moved to trash".to_string(),
            CleanItemStatus::SkippedDryRun => "skipped (dry run)".to_string(),
            CleanItemStatus::Failed(reason) => crate::text::concat("failed: ", reason.as_str()),
        }
    }
}

/// Per-item execution result.
#[derive(Debug, PartialEq)]
pub struct CleanItemResult {
    pub path: PathBuf,
    pub size: u64,
    pub target_id: String,
    pub status: CleanItemStatus,
}

impl Clone for CleanItemResult {
    fn clone(&self) -> (out: Self)
        ensures
            out == *self,
    {
        CleanItemResult {
            path: self.path.clone(),
            size: self.size,
            target_id: self.target_id.clone(),
            status: self.status.clone(),
        }
    }
}

/// Output of a cleaning execution, referencing the plan it fulfilled.
#[derive(Debug, PartialEq)]
pub struct CleanReport {
    pub plan: CleanPlan,
    pub results: Vec<CleanItemResult>,
    pub bytes_freed: u64,
    pub items_freed: usize,
    pub errors_count: usize,
    pub duration_ms: u64,
    pub dry_run: bool,
}

impl Clone for CleanReport {
    fn clone(&self) -> (out: Self)
        ensures
            out.plan.items@ == self.plan.items@,
            out.plan.targets@ == self.plan.targets@,
            out.plan.total_bytes == self.plan.total_bytes,
            out.plan.total_items == self.plan.total_items,
            out.plan.is_dry_run == self.plan.is_dry_run,
            out.plan.one_file_system == self.plan.one_file_system,
            out.results@ == self.results@,
            out.bytes_freed == self.bytes_freed,
            out.items_freed == self.items_freed,
            out.errors_count == self.errors_count,
            out.duration_ms == self.duration_ms,
            out.dry_run == self.dry_run,
    {
        let results = self.results.clone();
        assert(results@ =~= self.results@);
        CleanReport {
            plan: self.plan.clone(),
            results,
            bytes_freed: self.bytes_freed,
            items_freed: self.items_freed,
            errors_count: self.errors_count,
            duration_ms: self.duration_ms,
            dry_run: self.dry_run,
        }
    }
}

// ---------------------------------------------------------------------------
// Laws of the tree operations
// ---------------------------------------------------------------------------
/// `list` is in order.
pub open spec fn in_order(c: SortCriterion, list: Seq<Node>) -> bool {
    forall|i: int, j: int| 0 <= i < j < list.len() ==> may_precede(c, #[trigger] list[i], #[trigger] list[j])
}

/// Whether the order does not tell `a` and `b` apart.
pub open spec fn tied(c: SortCriterion, a: Node, b: Node) -> bool {
    may_precede(c, a, b) && may_precede(c, b, a)
}

proof fn lemma_inserted_elements(c: SortCriterion, list: Seq<Node>, x: Node)
    ensures
        inserted(c, list, x).len() == list.len() + 1,
        forall|i: int|
            0 <= i < list.len() + 1 ==> (#[trigger] inserted(c, list, x)[i]) == x || exists|j: int|
                0 <= j < list.len() && list[j] == inserted(c, list, x)[i],
    decreases list.len(),
{
    let out = inserted(c, list, x);
    if list.len() > 0 && !may_precede(c, list.last(), x) {
        let short = list.drop_last();
        lemma_inserted_elements(c, short, x);
        assert forall|i: int| 0 <= i < out.len() implies (#[trigger] out[i]) == x || exists|j: int|
            0 <= j < list.len() && list[j] == out[i] by {
            if i < out.len() - 1 {
                assert(out[i] == inserted(c, short, x)[i]);
                if out[i] != x {
                    let j = choose|j: int| 0 <= j < short.len() && short[j] == out[i];
                    assert(list[j] == out[i]);
                }
            } else {
                assert(out[i] == list[list.len() - 1]);
            }
        }
    } else {
        assert forall|i: int| 0 <= i < out.len() implies (#[trigger] out[i]) == x || exists|j: int|
            0 <= j < list.len() && list[j] == out[i] by {
            if i < list.len() {
                assert(list[i] == out[i]);
            }
        }
    }
}

proof fn lemma_inserted_in_order(c: SortCriterion, list: Seq<Node>, x: Node)
    requires
        in_order(c, list),
    ensures
        in_order(c, inserted(c, list, x)),
    decreases list.len(),
{
    let out = inserted(c, list, x);
    if list.len() > 0 && !may_precede(c, list.last(), x) {
        let short = list.drop_last();
        assert(in_order(c, short));
        lemma_inserted_in_order(c, short, x);
        lemma_inserted_elements(c, short, x);
        let last = list.last();
        assert forall|i: int, j: int| 0 <= i < j < out.len() implies may_precede(
            c,
            #[trigger] out[i],
            #[trigger] out[j],
        ) by {
            if j == out.len() - 1 {
                assert(out[i] == inserted(c, short, x)[i]);
                if out[i] == x {
                    lemma_order_total(c, x, last);
                } else {
                    let k = choose|k: int| 0 <= k < short.len() && short[k] == out[i];
                    assert(list[k] == out[i] && list[list.len() - 1] == last);
                }
            } else {
                assert(out[i] == inserted(c, short, x)[i] && out[j] == inserted(c, short, x)[j]);
            }
        }
    } else {
        assert forall|i: int, j: int| 0 <= i < j < out.len() implies may_precede(
            c,
            #[trigger] out[i],
            #[trigger] out[j],
        ) by {
            if j == list.len() {
                if i < list.len() - 1 {
                    assert(list[i] == out[i]);
                    lemma_order_transitive(c, list[i], list[list.len() - 1], x);
                } else {
                    assert(out[i] == list.last());
                }
            } else {
                assert(list[i] == out[i] && list[j] == out[j]);
            }
        }
    }
}

/// A sorted list is in order.
pub proof fn law_stable_sorted_in_order(c: SortCriterion, list: Seq<Node>)
    ensures
        in_order(c, stable_sorted(c, list)),
    decreases list.len(),
{
    if list.len() > 0 {
        law_stable_sorted_in_order(c, list.drop_last());
        lemma_inserted_in_order(c, stable_sorted(c, list.drop_last()), list.last());
    }
}

proof fn lemma_inserted_permutation(c: SortCriterion, list: Seq<Node>, x: Node)
    ensures
        inserted(c, list, x).to_multiset() == list.to_multiset().insert(x),
    decreases list.len(),
{
    broadcast use vstd::seq_lib::group_to_multiset_ensures;

    if list.len() > 0 && !may_precede(c, list.last(), x) {
        let short = list.drop_last();
        lemma_inserted_permutation(c, short, x);
        assert(list =~= short.push(list.last()));
        assert(inserted(c, short, x).push(list.last()).to_multiset()
            =~= list.to_multiset().insert(x));
    }
}

/// A sorted list holds the same elements, each as often.
pub proof fn law_stable_sorted_is_permutation(c: SortCriterion, list: Seq<Node>)
    ensures
        stable_sorted(c, list).to_multiset() == list.to_multiset(),
    decreases list.len(),
{
    broadcast use vstd::seq_lib::group_to_multiset_ensures;

    if list.len() > 0 {
        let short = list.drop_last();
        law_stable_sorted_is_permutation(c, short);
        lemma_inserted_permutation(c, stable_sorted(c, short), list.last());
        assert(list =~= short.push(list.last()));
    }
}

proof fn lemma_filter_push(list: Seq<Node>, x: Node, pred: spec_fn(Node) -> bool)
    ensures
        list.push(x).filter(pred) == (if pred(x) {
            list.filter(pred).push(x)
        } else {
            list.filter(pred)
        }),
{
    reveal(Seq::filter);
    assert(list.push(x).drop_last() =~= list);
}

proof fn lemma_inserted_stable(c: SortCriterion, list: Seq<Node>, x: Node, key: Node)
    ensures
        inserted(c, list, x).filter(|n: Node| tied(c, n, key)) == list.push(x).filter(
            |n: Node| tied(c, n, key),
        ),
    decreases list.len(),
{
    let same = |n: Node| tied(c, n, key);
    if list.len() > 0 && !may_precede(c, list.last(), x) {
        let short = list.drop_last();
        let last = list.last();
        lemma_inserted_stable(c, short, x, key);
        assert(list =~= short.push(last));
        lemma_filter_push(inserted(c, short, x), last, same);
        lemma_filter_push(short, x, same);
        lemma_filter_push(short, last, same);
        lemma_filter_push(list, x, same);
        if same(x) && same(last) {
            lemma_order_transitive(c, last, key, x);
        }
    }
}

/// Sorting is stable: among entries that the order does not tell apart, the
/// order they came in is kept.
pub proof fn law_stable_sorted_is_stable(c: SortCriterion, list: Seq<Node>, key: Node)
    ensures
        stable_sorted(c, list).filter(|n: Node| tied(c, n, key)) == list.filter(
            |n: Node| tied(c, n, key),
        ),
    decreases list.len(),
{
    let same = |n: Node| tied(c, n, key);
    if list.len() > 0 {
        let short = list.drop_last();
        law_stable_sorted_is_stable(c, short, key);
        lemma_inserted_stable(c, stable_sorted(c, short), list.last(), key);
        assert(list =~= short.push(list.last()));
        lemma_filter_push(stable_sorted(c, short), list.last(), same);
        lemma_filter_push(short, list.last(), same);
    }
}

impl Node {
    /// The children of every node are in order.
    pub open spec fn every_level_in_order(self, c: SortCriterion) -> bool
        decreases self,
    {
        &&& in_order(c, self.children)
        &&& forall|i: int|
            0 <= i < self.children.len() ==> (#[trigger] self.children[i]).every_level_in_order(c)
    }

    /// No node below this one is smaller than `min_size`.
    pub open spec fn nothing_below(self, min_size: nat) -> bool
        decreases self,
    {
        forall|i: int|
            0 <= i < self.children.len() ==> (#[trigger] self.children[i]).size >= min_size
                && self.children[i].nothing_below(min_size)
    }

    /// No node has more than `n` children.
    pub open spec fn at_most(self, n: nat) -> bool
        decreases self,
    {
        &&& self.children.len() <= n
        &&& forall|i: int|
            0 <= i < self.children.len() ==> (#[trigger] self.children[i]).at_most(n)
    }

    /// No node lies more than `depth` levels below this one.
    pub open spec fn no_deeper_than(self, depth: nat) -> bool
        decreases depth,
    {
        if depth == 0 {
            self.children.len() == 0
        } else {
            forall|i: int|
                0 <= i < self.children.len() ==> (#[trigger] self.children[i]).no_deeper_than(
                    (depth - 1) as nat,
                )
        }
    }

    /// Every directory of this tree is as large as its visible children and
    /// its tallied ones together.
    pub open spec fn accounted(self) -> bool
        decreases self,
    {
        &&& self.is_dir ==> self.size == total_size(self.children) + self.pruned_size
        &&& forall|i: int| 0 <= i < self.children.len() ==> (#[trigger] self.children[i]).accounted()
    }

    /// Every directory of this tree carries the totals of its children, and
    /// every file counts itself.
    pub open spec fn aggregated(self) -> bool
        decreases self,
    {
        &&& if self.is_dir {
            &&& self.size == total_size(self.children)
            &&& self.apparent_size == total_apparent(self.children)
            &&& self.file_count == total_files(self.children)
            &&& self.dir_count == total_dirs(self.children)
        } else {
            &&& self.file_count == 1
            &&& self.dir_count == 0
            &&& self.children.len() == 0
        }
        &&& forall|i: int| 0 <= i < self.children.len() ==> (#[trigger] self.children[i]).aggregated()
    }
}

/// A fresh node is aggregated.
pub proof fn law_leaf_aggregated(name: Seq<char>, path: Seq<char>, is_dir: bool)
    ensures
        Node::leaf(name, path, is_dir).aggregated(),
{
}

/// Adding an aggregated child to an aggregated directory leaves it
/// aggregated.
pub proof fn law_with_child_aggregated(node: Node, child: Node)
    requires
        node.is_dir,
        node.aggregated(),
        child.aggregated(),
    ensures
        node.with_child(child).aggregated(),
{
    assert(node.children.push(child).drop_last() =~= node.children);
}

impl Node {
    /// All files of this tree.
    pub open spec fn files(self) -> Seq<Node>
        decreases self, self.children.len() + 1,
    {
        if self.is_dir {
            self.files_of_first(self.children.len())
        } else {
            seq![self]
        }
    }

    /// All files of the first `n` children.
    pub open spec fn files_of_first(self, n: nat) -> Seq<Node>
        decreases self, n,
    {
        if n == 0 || n > self.children.len() {
            Seq::empty()
        } else {
            self.files_of_first((n - 1) as nat) + self.children[n - 1].files()
        }
    }

    /// All directories strictly below the first `n` children, and those among
    /// these children.
    pub open spec fn directories_of_first(self, n: nat) -> Seq<Node>
        decreases self, n,
    {
        if n == 0 || n > self.children.len() {
            Seq::empty()
        } else {
            let child = self.children[n - 1];
            let below = self.directories_of_first((n - 1) as nat) + child.directories_of_first(
                child.children.len(),
            );
            if child.is_dir {
                below.push(child)
            } else {
                below
            }
        }
    }
}

proof fn lemma_total_apparent_concat(a: Seq<Node>, b: Seq<Node>)
    ensures
        total_apparent(a + b) == total_apparent(a) + total_apparent(b),
    decreases b.len(),
{
    if b.len() == 0 {
        assert(a + b =~= a);
    } else {
        assert((a + b).drop_last() =~= a + b.drop_last());
        lemma_total_apparent_concat(a, b.drop_last());
    }
}

proof fn lemma_totals_of_first(node: Node, n: nat)
    requires
        node.aggregated(),
        n <= node.children.len(),
    ensures
        total_size(node.children.take(n as int)) == total_size(node.files_of_first(n)),
        total_apparent(node.children.take(n as int)) == total_apparent(node.files_of_first(n)),
        total_files(node.children.take(n as int)) == node.files_of_first(n).len(),
        total_dirs(node.children.take(n as int)) == node.directories_of_first(n).len(),
    decreases node, n,
{
    if n == 0 {
        assert(node.children.take(0) =~= Seq::empty());
    } else {
        let m = (n - 1) as nat;
        let child = node.children[m as int];
        lemma_totals_of_first(node, m);
        law_totals_of_files(child);
        assert(node.children.take(n as int).drop_last() =~= node.children.take(m as int));
        lemma_total_size_concat(node.files_of_first(m), child.files());
        lemma_total_apparent_concat(node.files_of_first(m), child.files());
    }
}

/// The totals of an aggregated tree are those of all its files and
/// directories, however deep they lie.
pub proof fn law_totals_of_files(node: Node)
    requires
        node.aggregated(),
    ensures
        node.size == total_size(node.files()),
        node.apparent_size == total_apparent(node.files()),
        node.file_count == node.files().len(),
        node.dir_count == node.directories_of_first(node.children.len()).len(),
    decreases node, node.children.len() + 1,
{
    if node.is_dir {
        lemma_totals_of_first(node, node.children.len());
        assert(node.children.take(node.children.len() as int) =~= node.children);
    } else {
        assert(seq![node].drop_last() =~= Seq::empty());
        reveal_with_fuel(total_size, 2);
        reveal_with_fuel(total_apparent, 2);
    }
}

/// An aggregated tree from which nothing was hidden is accounted for.
pub proof fn law_aggregated_is_accounted(node: Node)
    requires
        node.aggregated(),
        node.unpruned(),
    ensures
        node.accounted(),
    decreases node,
{
    assert forall|i: int| 0 <= i < node.children.len() implies (
    #[trigger] node.children[i]).accounted() by {
        law_aggregated_is_accounted(node.children[i]);
    }
}

impl Node {
    /// Nothing was hidden from this tree.
    pub open spec fn unpruned(self) -> bool
        decreases self,
    {
        &&& self.pruned_entries == 0
        &&& self.pruned_size == 0
        &&& forall|i: int| 0 <= i < self.children.len() ==> (#[trigger] self.children[i]).unpruned()
    }
}

pub proof fn lemma_sorted_elements(c: SortCriterion, list: Seq<Node>)
    ensures
        stable_sorted(c, list).len() == list.len(),
        forall|i: int|
            0 <= i < list.len() ==> exists|j: int|
                0 <= j < list.len() && #[trigger] stable_sorted(c, list)[i] == list[j],
    decreases list.len(),
{
    if list.len() > 0 {
        let short = list.drop_last();
        let mid = stable_sorted(c, short);
        let out = stable_sorted(c, list);
        lemma_sorted_elements(c, short);
        lemma_inserted_elements(c, mid, list.last());
        assert forall|i: int| 0 <= i < list.len() implies exists|j: int|
            0 <= j < list.len() && #[trigger] out[i] == list[j] by {
            if out[i] == list.last() {
                assert(out[i] == list[list.len() - 1]);
            } else {
                assert(out[i] == inserted(c, mid, list.last())[i]);
                let k = choose|k: int| 0 <= k < mid.len() && mid[k] == out[i];
                let j = choose|j: int| 0 <= j < short.len() && mid[k] == short[j];
                assert(out[i] == list[j]);
            }
        }
    }
}

/// Sorting a tree orders every level of it.
pub proof fn law_sorted_tree_in_order(node: Node, c: SortCriterion)
    ensures
        node.sorted(c).every_level_in_order(c),
    decreases node,
{
    let list = node.sorted_children(c);
    let out = stable_sorted(c, list);
    law_stable_sorted_in_order(c, list);
    lemma_sorted_elements(c, list);
    assert forall|i: int| 0 <= i < out.len() implies (#[trigger] out[i]).every_level_in_order(c) by {
        let j = choose|j: int| 0 <= j < list.len() && out[i] == list[j];
        assert(list[j] == node.children[j].sorted(c));
        law_sorted_tree_in_order(node.children[j], c);
    }
}

proof fn lemma_total_size_inserted(c: SortCriterion, list: Seq<Node>, x: Node)
    ensures
        total_size(inserted(c, list, x)) == total_size(list) + x.size,
    decreases list.len(),
{
    if list.len() > 0 && !may_precede(c, list.last(), x) {
        let short = list.drop_last();
        lemma_total_size_inserted(c, short, x);
        assert(inserted(c, short, x).push(list.last()).drop_last() =~= inserted(c, short, x));
    } else {
        assert(list.push(x).drop_last() =~= list);
    }
}

proof fn lemma_total_size_sorted(c: SortCriterion, list: Seq<Node>)
    ensures
        total_size(stable_sorted(c, list)) == total_size(list),
    decreases list.len(),
{
    if list.len() > 0 {
        lemma_total_size_sorted(c, list.drop_last());
        lemma_total_size_inserted(c, stable_sorted(c, list.drop_last()), list.last());
    }
}

/// Two lists of pairwise equal sizes are equally large.
pub proof fn lemma_total_size_same(a: Seq<Node>, b: Seq<Node>)
    requires
        a.len() == b.len(),
        forall|i: int| 0 <= i < a.len() ==> (#[trigger] a[i]).size == b[i].size,
    ensures
        total_size(a) == total_size(b),
    decreases a.len(),
{
    if a.len() > 0 {
        assert(a[a.len() - 1].size == b[a.len() - 1].size);
        assert forall|i: int| 0 <= i < a.drop_last().len() implies (
        #[trigger] a.drop_last()[i]).size == b.drop_last()[i].size by {
            assert(a[i].size == b[i].size);
        }
        lemma_total_size_same(a.drop_last(), b.drop_last());
    }
}

/// Sorting keeps a tree accounted for, and changes nothing but the order of
/// children.
pub proof fn law_sorted_accounted(node: Node, c: SortCriterion)
    requires
        node.accounted(),
    ensures
        node.sorted(c).accounted(),
        node.sorted(c) == (Node { children: node.sorted(c).children, ..node }),
    decreases node,
{
    let list = node.sorted_children(c);
    let out = stable_sorted(c, list);
    lemma_sorted_elements(c, list);
    lemma_total_size_sorted(c, list);
    lemma_total_size_same(list, node.children);
    assert forall|i: int| 0 <= i < out.len() implies (#[trigger] out[i]).accounted() by {
        let j = choose|j: int| 0 <= j < list.len() && out[i] == list[j];
        assert(list[j] == node.children[j].sorted(c));
        assert(node.children[j].accounted());
        law_sorted_accounted(node.children[j], c);
    }
}

proof fn lemma_total_size_split(list: Seq<Node>, min_size: nat)
    ensures
        total_size(list) == total_size(list.filter(|n: Node| n.size >= min_size)) + total_size(
            list.filter(|n: Node| n.size < min_size),
        ),
    decreases list.len(),
{
    let keep = |n: Node| n.size >= min_size;
    let drop = |n: Node| n.size < min_size;
    if list.len() == 0 {
        reveal(Seq::filter);
    } else {
        let short = list.drop_last();
        let last = list.last();
        lemma_total_size_split(short, min_size);
        assert(list =~= short.push(last));
        lemma_filter_push(short, last, keep);
        lemma_filter_push(short, last, drop);
        if keep(last) {
            assert(short.filter(keep).push(last).drop_last() =~= short.filter(keep));
        } else {
            assert(short.filter(drop).push(last).drop_last() =~= short.filter(drop));
        }
    }
}

/// Filtering by size keeps a tree accounted for: what is hidden is tallied.
/// Everything below the threshold is gone, at every level, and the aggregates
/// of the tree do not change.
pub proof fn law_filtered(node: Node, min_size: nat)
    ensures
        node.accounted() ==> node.filtered(min_size).accounted(),
        node.filtered(min_size).nothing_below(min_size),
        node.filtered(min_size).size == node.size,
        node.filtered(min_size).apparent_size == node.apparent_size,
        node.filtered(min_size).item_count() == node.item_count(),
        total_size(node.filtered(min_size).children) + node.filtered(min_size).pruned_size
            == total_size(node.children) + node.pruned_size,
    decreases node,
{
    let list = node.filtered_children(min_size);
    let keep = |n: Node| n.size >= min_size;
    let kept = list.filter(keep);
    lemma_total_size_split(list, min_size);
    lemma_total_size_same(list, node.children);
    assert forall|i: int| 0 <= i < kept.len() implies (#[trigger] kept[i]).size >= min_size
        && kept[i].nothing_below(min_size) && (node.accounted() ==> kept[i].accounted()) by {
        broadcast use vstd::seq_lib::group_filter_ensures;

        assert(kept.contains(kept[i]));
        list.lemma_filter_contains_rev(keep, kept[i]);
        let j = choose|j: int| 0 <= j < list.len() && list[j] == kept[i];
        assert(list[j] == node.children[j].filtered(min_size));
        law_filtered(node.children[j], min_size);
        if node.accounted() {
            assert(node.children[j].accounted());
        }
    }
}

/// Keeping the first `n` children keeps a tree accounted for and leaves at
/// most `n` children at every level; the aggregates do not change.
pub proof fn law_retained(node: Node, n: nat)
    ensures
        node.accounted() ==> node.retained(n).accounted(),
        node.retained(n).at_most(n),
        node.retained(n).size == node.size,
        node.retained(n).apparent_size == node.apparent_size,
        node.retained(n).item_count() == node.item_count(),
        total_size(node.retained(n).children) + node.retained(n).pruned_size == total_size(
            node.children,
        ) + node.pruned_size,
    decreases node,
{
    let kept = node.kept_count(n) as int;
    let out = node.retained(n).children;
    assert forall|i: int| 0 <= i < out.len() implies (#[trigger] out[i]).size
        == node.children.take(kept)[i].size by {
        assert(out[i] == node.children[i].retained(n));
    }
    lemma_total_size_same(out, node.children.take(kept));
    assert(node.children =~= node.children.take(kept) + node.children.skip(kept));
    lemma_total_size_concat(node.children.take(kept), node.children.skip(kept));
    assert forall|i: int| 0 <= i < out.len() implies (#[trigger] out[i]).at_most(n) && (
    node.accounted() ==> out[i].accounted()) by {
        assert(out[i] == node.children[i].retained(n));
        law_retained(node.children[i], n);
        if node.accounted() {
            assert(node.children[i].accounted());
        }
    }
}

/// Cutting a tree at a depth leaves nothing below it and changes no
/// aggregate.
pub proof fn law_truncated(node: Node, depth: nat)
    ensures
        node.truncated(depth).no_deeper_than(depth),
        node.truncated(depth) == (Node { children: node.truncated(depth).children, ..node }),
    decreases node,
{
    if depth > 0 {
        let out = node.truncated(depth).children;
        assert forall|i: int| 0 <= i < out.len() implies (#[trigger] out[i]).no_deeper_than(
            (depth - 1) as nat,
        ) by {
            law_truncated(node.children[i], (depth - 1) as nat);
        }
    }
}

/// The number of items of all `targets` together.
pub open spec fn counted(targets: Seq<TargetSummary>) -> nat
    decreases targets.len(),
{
    if targets.len() == 0 {
        0
    } else {
        counted(targets.drop_last()) + targets.last().item_count as nat
    }
}

/// The bytes of all `targets` together.
pub open spec fn weighed(targets: Seq<TargetSummary>) -> nat
    decreases targets.len(),
{
    if targets.len() == 0 {
        0
    } else {
        weighed(targets.drop_last()) + targets.last().total_bytes as nat
    }
}

/// Tells the items that belong to any target but `id`.
spec fn not_owned_by(id: Seq<char>) -> spec_fn(CleanItem) -> bool {
    |item: CleanItem| item.target_id@ != id
}

/// The items that belong to any target but `id`.
spec fn without_target(items: Seq<CleanItem>, id: Seq<char>) -> Seq<CleanItem> {
    items.filter(not_owned_by(id))
}

proof fn lemma_without_target(items: Seq<CleanItem>, id: Seq<char>)
    ensures
        items.len() == of_target(items, id).len() + without_target(items, id).len(),
        bytes_of(items) == bytes_of(of_target(items, id)) + bytes_of(without_target(items, id)),
        forall|x: Seq<char>|
            x != id ==> #[trigger] of_target(without_target(items, id), x) == of_target(items, x),
    decreases items.len(),
{
    reveal(Seq::filter);
    let rest = without_target(items, id);
    if items.len() > 0 {
        let short = items.drop_last();
        let last = items.last();
        let short_rest = without_target(short, id);
        lemma_without_target(short, id);
        assert(items =~= short.push(last));
        lemma_of_target_push(short, last, id);
        if last.target_id@ != id {
            assert(rest =~= short_rest.push(last));
            assert(rest.drop_last() =~= short_rest);
        } else {
            assert(rest =~= short_rest);
        }
        assert forall|x: Seq<char>| x != id implies #[trigger] of_target(rest, x) == of_target(
            items,
            x,
        ) by {
            lemma_of_target_push(short, last, x);
            assert(of_target(short_rest, x) == of_target(short, x));
            if last.target_id@ != id {
                lemma_of_target_push(short_rest, last, x);
            }
        }
    }
}

/// The breakdown of a plan adds up to the plan: every item and every byte is
/// in exactly one target's summary.
pub proof fn law_breakdown_adds_up(targets: Seq<TargetSummary>, items: Seq<CleanItem>)
    requires
        breaks_down(targets, items),
    ensures
        counted(targets) == items.len(),
        weighed(targets) == bytes_of(items),
    decreases targets.len(),
{
    if targets.len() == 0 {
        if items.len() > 0 {
            let i = choose|i: int|
                0 <= i < targets.len() && #[trigger] targets[i].target_id@ == items[0].target_id@;
            assert(items[0].target_id@ == items[0].target_id@);
        }
    } else {
        let last = targets.last();
        let id = last.target_id@;
        let short = targets.drop_last();
        let rest = without_target(items, id);
        lemma_without_target(items, id);
        assert(targets[targets.len() - 1].sums_up(items));
        assert forall|i: int| 0 <= i < short.len() implies (#[trigger] short[i]).sums_up(rest) by {
            assert(targets[i].sums_up(items));
            assert(text_less(
                targets[i].target_id@,
                targets[targets.len() - 1].target_id@,
            ));
            crate::text::lemma_text_less_irreflexive(id);
            assert(of_target(rest, short[i].target_id@) == of_target(items, short[i].target_id@));
        }
        assert forall|k: int| 0 <= k < rest.len() implies exists|i: int|
            0 <= i < short.len() && #[trigger] short[i].target_id@ == (
            #[trigger] rest[k]).target_id@ by {
            broadcast use vstd::seq_lib::group_filter_ensures;

            assert(rest.contains(rest[k]));
            items.lemma_filter_contains_rev(not_owned_by(id), rest[k]);
            let m = choose|m: int| 0 <= m < items.len() && items[m] == rest[k];
            assert(items[m].target_id@ != id);
            let i = choose|i: int|
                0 <= i < targets.len() && #[trigger] targets[i].target_id@ == items[m].target_id@;
            assert(short[i].target_id@ == rest[k].target_id@);
        }
        assert forall|i: int, j: int| 0 <= i < j < short.len() implies text_less(
            #[trigger] short[i].target_id@,
            #[trigger] short[j].target_id@,
        ) by {
            assert(text_less(targets[i].target_id@, targets[j].target_id@));
        }
        law_breakdown_adds_up(short, rest);
    }
}

/// Whether a list ascends in name, or descends in the number of entries or in
/// size.
pub open spec fn runs_by(c: SortCriterion, list: Seq<Node>) -> bool {
    forall|i: int, j: int|
        0 <= i < j < list.len() ==> {
            let a = #[trigger] list[i];
            let b = #[trigger] list[j];
            match c {
                SortCriterion::Name => a.name == b.name || text_less(a.name, b.name),
                SortCriterion::Count => a.file_count + a.dir_count >= b.file_count + b.dir_count,
                SortCriterion::Size => a.size >= b.size,
            }
        }
}

impl Node {
    /// The children of every node run by `c`.
    pub open spec fn runs_everywhere(self, c: SortCriterion) -> bool
        decreases self,
    {
        &&& runs_by(c, self.children)
        &&& forall|i: int|
            0 <= i < self.children.len() ==> (#[trigger] self.children[i]).runs_everywhere(c)
    }
}

proof fn lemma_in_order_runs(node: Node, c: SortCriterion)
    requires
        node.every_level_in_order(c),
    ensures
        node.runs_everywhere(c),
    decreases node,
{
    let list = node.children;
    assert forall|i: int, j: int| 0 <= i < j < list.len() implies {
        let a = #[trigger] list[i];
        let b = #[trigger] list[j];
        match c {
            SortCriterion::Name => a.name == b.name || text_less(a.name, b.name),
            SortCriterion::Count => a.file_count + a.dir_count >= b.file_count + b.dir_count,
            SortCriterion::Size => a.size >= b.size,
        }
    } by {
        assert(may_precede(c, list[i], list[j]));
        lemma_text_less_total(list[i].name, list[j].name);
    }
    assert forall|i: int| 0 <= i < list.len() implies (#[trigger] list[i]).runs_everywhere(c) by {
        lemma_in_order_runs(list[i], c);
    }
}

/// Sorting a tree makes every level of it run by the criterion: names ascend,
/// counts and sizes descend.
pub proof fn law_sorted_runs(node: Node, c: SortCriterion)
    ensures
        node.sorted(c).runs_everywhere(c),
{
    law_sorted_tree_in_order(node, c);
    lemma_in_order_runs(node.sorted(c), c);
}

/// Keeping the first children of every node leaves the order as it is, and
/// keeps exactly these: as many as asked for, where there are so many.
pub proof fn law_retained_first(node: Node, n: nat, c: SortCriterion)
    ensures
        node.runs_everywhere(c) ==> node.retained(n).runs_everywhere(c),
        node.retained(n).children.len() == if n < node.children.len() {
            n
        } else {
            node.children.len()
        },
        forall|i: int|
            0 <= i < node.retained(n).children.len() ==> {
                let child = #[trigger] node.retained(n).children[i];
                &&& child.name == node.children[i].name
                &&& child.path == node.children[i].path
                &&& child.size == node.children[i].size
                &&& child.apparent_size == node.children[i].apparent_size
                &&& child.file_count == node.children[i].file_count
                &&& child.dir_count == node.children[i].dir_count
                &&& child.is_dir == node.children[i].is_dir
            },
        node.retained(n).pruned_entries + node.retained(n).children.len() == node.pruned_entries
            + node.children.len(),
    decreases node,
{
    let out = node.retained(n).children;
    assert forall|i: int| 0 <= i < out.len() implies #[trigger] out[i]
        == node.children[i].retained(n) by {}
    if node.runs_everywhere(c) {
        assert forall|i: int| 0 <= i < out.len() implies (#[trigger] out[i]).runs_everywhere(c) by {
            assert(node.children[i].runs_everywhere(c));
            law_retained_first(node.children[i], n, c);
        }
        assert forall|i: int, j: int| 0 <= i < j < out.len() implies {
            let a = #[trigger] out[i];
            let b = #[trigger] out[j];
            match c {
                SortCriterion::Name => a.name == b.name || text_less(a.name, b.name),
                SortCriterion::Count => a.file_count + a.dir_count >= b.file_count + b.dir_count,
                SortCriterion::Size => a.size >= b.size,
            }
        } by {
            assert(node.children[i].size >= 0 && node.children[j].size >= 0);
        }
        assert(runs_by(c, out));
    }
}

/// Cutting a tree at a depth leaves the order of what remains, and all
/// children of the levels above.
pub proof fn law_truncated_keeps(node: Node, depth: nat, c: SortCriterion)
    ensures
        node.runs_everywhere(c) ==> node.truncated(depth).runs_everywhere(c),
        depth > 0 ==> node.truncated(depth).children.len() == node.children.len(),
        forall|i: int|
            0 <= i < node.truncated(depth).children.len() ==> {
                let child = #[trigger] node.truncated(depth).children[i];
                &&& child.name == node.children[i].name
                &&& child.path == node.children[i].path
                &&& child.size == node.children[i].size
                &&& child.apparent_size == node.children[i].apparent_size
                &&& child.file_count == node.children[i].file_count
                &&& child.dir_count == node.children[i].dir_count
                &&& child.is_dir == node.children[i].is_dir
            },
        node.truncated(depth).pruned_entries == node.pruned_entries,
        node.truncated(depth).pruned_size == node.pruned_size,
    decreases node,
{
    let out = node.truncated(depth).children;
    if depth > 0 {
        let d = (depth - 1) as nat;
        assert forall|i: int| 0 <= i < out.len() implies #[trigger] out[i]
            == node.children[i].truncated(d) by {}
        if node.runs_everywhere(c) {
            assert forall|i: int| 0 <= i < out.len() implies (
            #[trigger] out[i]).runs_everywhere(c) by {
                assert(node.children[i].runs_everywhere(c));
                law_truncated_keeps(node.children[i], d, c);
            }
            assert forall|i: int, j: int| 0 <= i < j < out.len() implies {
                let a = #[trigger] out[i];
                let b = #[trigger] out[j];
                match c {
                    SortCriterion::Name => a.name == b.name || text_less(a.name, b.name),
                    SortCriterion::Count => a.file_count + a.dir_count >= b.file_count
                        + b.dir_count,
                    SortCriterion::Size => a.size >= b.size,
                }
            } by {
                assert(node.children[i].size >= 0 && node.children[j].size >= 0);
            }
            assert(runs_by(c, out));
        }
    }
}

/// Sorting, limiting and cutting a tree bring nothing back that is too small
/// or too many.
pub proof fn law_limits_kept(node: Node, min_size: nat, c: SortCriterion, n: nat, depth: nat)
    ensures
        node.nothing_below(min_size) ==> node.sorted(c).nothing_below(min_size),
        node.nothing_below(min_size) ==> node.retained(n).nothing_below(min_size),
        node.nothing_below(min_size) ==> node.truncated(depth).nothing_below(min_size),
        node.at_most(n) ==> node.truncated(depth).at_most(n),
        node.sorted(c).children.len() == node.children.len(),
        node.sorted(c).pruned_entries == node.pruned_entries,
        node.sorted(c).pruned_size == node.pruned_size,
    decreases node,
{
    let list = node.sorted_children(c);
    let sorted = stable_sorted(c, list);
    lemma_sorted_elements(c, list);
    if node.nothing_below(min_size) {
        assert forall|i: int| 0 <= i < sorted.len() implies (#[trigger] sorted[i]).size >= min_size
            && sorted[i].nothing_below(min_size) by {
            let j = choose|j: int| 0 <= j < list.len() && sorted[i] == list[j];
            assert(list[j] == node.children[j].sorted(c));
            assert(node.children[j].size >= min_size);
            law_limits_kept(node.children[j], min_size, c, n, depth);
        }
        let kept = node.retained(n).children;
        assert forall|i: int| 0 <= i < kept.len() implies (#[trigger] kept[i]).size >= min_size
            && kept[i].nothing_below(min_size) by {
            assert(kept[i] == node.children[i].retained(n));
            assert(node.children[i].size >= min_size);
            law_limits_kept(node.children[i], min_size, c, n, depth);
        }
        if depth > 0 {
            let cut = node.truncated(depth).children;
            assert forall|i: int| 0 <= i < cut.len() implies (#[trigger] cut[i]).size >= min_size
                && cut[i].nothing_below(min_size) by {
                assert(cut[i] == node.children[i].truncated((depth - 1) as nat));
                assert(node.children[i].size >= min_size);
                law_limits_kept(node.children[i], min_size, c, n, (depth - 1) as nat);
            }
        }
    }
    if node.at_most(n) && depth > 0 {
        let cut = node.truncated(depth).children;
        assert forall|i: int| 0 <= i < cut.len() implies (#[trigger] cut[i]).at_most(n) by {
            assert(cut[i] == node.children[i].truncated((depth - 1) as nat));
            assert(node.children[i].at_most(n));
            law_limits_kept(node.children[i], min_size, c, n, (depth - 1) as nat);
        }
    }
}

/// How many of `list` are smaller than `min_size`.
pub open spec fn smaller(list: Seq<Node>, min_size: nat) -> nat
    decreases list.len(),
{
    if list.len() == 0 {
        0
    } else {
        smaller(list.drop_last(), min_size) + (if list.last().size < min_size {
            1nat
        } else {
            0
        })
    }
}

/// Filtering by size hides exactly the children that are too small, and counts
/// them.
pub proof fn law_filtered_counts(node: Node, min_size: nat)
    ensures
        node.filtered(min_size).pruned_entries == node.pruned_entries + smaller(
            node.children,
            min_size,
        ),
        node.filtered(min_size).children.len() == node.children.len() - smaller(
            node.children,
            min_size,
        ),
{
    let list = node.filtered_children(min_size);
    lemma_smaller_filter(list, min_size);
    lemma_smaller_same(list, node.children, min_size);
}

proof fn lemma_smaller_filter(list: Seq<Node>, min_size: nat)
    ensures
        list.filter(|n: Node| n.size < min_size).len() == smaller(list, min_size),
        list.filter(|n: Node| n.size >= min_size).len() == list.len() - smaller(list, min_size),
    decreases list.len(),
{
    reveal(Seq::filter);
    if list.len() > 0 {
        lemma_smaller_filter(list.drop_last(), min_size);
    }
}

proof fn lemma_smaller_same(a: Seq<Node>, b: Seq<Node>, min_size: nat)
    requires
        a.len() == b.len(),
        forall|i: int| 0 <= i < a.len() ==> (#[trigger] a[i]).size == b[i].size,
    ensures
        smaller(a, min_size) == smaller(b, min_size),
    decreases a.len(),
{
    if a.len() > 0 {
        assert(a[a.len() - 1].size == b[a.len() - 1].size);
        assert forall|i: int| 0 <= i < a.drop_last().len() implies (
        #[trigger] a.drop_last()[i]).size == b.drop_last()[i].size by {
            assert(a[i].size == b[i].size);
        }
        lemma_smaller_same(a.drop_last(), b.drop_last(), min_size);
    }
}

/// What the breakdown of a plan says of each target: how many of the items are
/// its own, how many bytes they take, and what the first of them is called and
/// where it lies. Targets stand in the order of their identifiers.
pub proof fn law_breakdown(targets: Seq<TargetSummary>, items: Seq<CleanItem>, i: int)
    requires
        breaks_down(targets, items),
        0 <= i < targets.len(),
    ensures
        ({
            let target = targets[i];
            let mine = items.filter(|item: CleanItem| item.target_id@ == target.target_id@);
            &&& mine.len() > 0
            &&& target.item_count == mine.len()
            &&& target.total_bytes == bytes_of(mine)
            &&& target.target_name@ == mine[0].target_name@
            &&& target.path@ == mine[0].path@
            &&& i > 0 ==> text_less(targets[i - 1].target_id@, target.target_id@)
        }),
{
    let id = targets[i].target_id@;
    assert(targets[i].sums_up(items));
    assert(owned_by(id) =~= (|item: CleanItem| item.target_id@ == id));
}

/// The bytes of a list of items are those of each of them.
pub proof fn law_bytes_of(items: Seq<CleanItem>, item: CleanItem)
    ensures
        bytes_of(Seq::empty()) == 0,
        bytes_of(items.push(item)) == bytes_of(items) + item.size,
{
    assert(items.push(item).drop_last() =~= items);
}

} // verus!
