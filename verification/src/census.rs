//! Every entry of a scan counts, and counts once.
//!
//! A listing in which everything lies in the scan root or in a listed directory
//! loses nothing when it is made into a tree, in whatever order it comes: the
//! totals of the tree are the sums of what the entries bring, one by one.

use crate::models::{total_apparent, total_dirs, total_files, total_size, Node};
use crate::path::{
    components, comps_text, extended, joined, lemma_steady_part, prefix_text, steady_name, verbatim,
    Comp, Platform,
};
use crate::scanner::{lemma_adopted, places, Listing, ScanOptions, ScanReading};
use vstd::prelude::*;

verus! {

/// What is counted.
pub enum Measure {
    /// Bytes, as the options count them.
    Bytes,
    /// Logical bytes.
    Logical,
    Files,
    Directories,
}

impl Node {
    /// What this tree brings to the directory that holds it.
    pub open spec fn measured(self, m: Measure) -> nat {
        match m {
            Measure::Bytes => self.size,
            Measure::Logical => self.apparent_size,
            Measure::Files => self.file_count,
            Measure::Directories => self.dir_count + (if self.is_dir {
                1nat
            } else {
                0
            }),
        }
    }
}

/// What all of `list` bring together.
pub open spec fn total(m: Measure, list: Seq<Node>) -> nat {
    match m {
        Measure::Bytes => total_size(list),
        Measure::Logical => total_apparent(list),
        Measure::Files => total_files(list),
        Measure::Directories => total_dirs(list),
    }
}

impl Listing {
    /// What entry `i` brings by itself.
    pub open spec fn own(self, i: int, m: Measure) -> nat {
        let e = self.entries[i];
        match m {
            Measure::Bytes => if e.is_dir {
                0
            } else if self.apparent_size {
                e.logical as nat
            } else {
                e.allocated as nat
            },
            Measure::Logical => if e.is_dir {
                0
            } else {
                e.logical as nat
            },
            Measure::Files => if e.is_dir {
                0
            } else {
                1
            },
            Measure::Directories => if e.is_dir {
                1
            } else {
                0
            },
        }
    }

    /// What the first `n` entries bring by themselves.
    pub open spec fn own_total(self, n: nat, m: Measure) -> nat
        decreases n,
    {
        if n == 0 || n > self.entries.len() {
            0
        } else {
            self.own_total((n - 1) as nat, m) + self.own(n - 1, m)
        }
    }

    /// Every entry lies in `root` or in a listed directory, directories are
    /// told apart by their locations, and the location of an entry is longer
    /// than that of what holds it, as it is with every plain name.
    pub open spec fn tidy(self, root: Seq<char>) -> bool {
        &&& forall|i: int|
            0 <= i < self.entries.len() ==> (#[trigger] self.entries[i]).parent@ == root
                || self.held_by_first(i, self.entries.len())
        &&& forall|i: int|
            0 <= i < self.entries.len() ==> (#[trigger] self.entries[i]).parent@.len()
                < self.location(i).len()
        &&& forall|i: int|
            0 <= i < self.entries.len() && (#[trigger] self.entries[i]).is_dir ==> self.location(i)
                != root
        &&& forall|i: int, j: int|
            0 <= i < j < self.entries.len() && (#[trigger] self.entries[i]).is_dir && (
            #[trigger] self.entries[j]).is_dir ==> self.location(i) != self.location(j)
    }

    /// Entry `i` lies in a directory that is one of the first `k` entries.
    pub open spec fn held_by_first(self, i: int, k: nat) -> bool {
        exists|j: int|
            0 <= j < k && (#[trigger] self.entries[j]).is_dir && self.location(j)
                == self.entries[i].parent@
    }

    /// The node of entry `i`, with all that it holds.
    spec fn whole(self, i: int) -> Node {
        self.entry_node(i, self.entries.len())
    }

    /// What the first `n` entries bring with all that they hold.
    spec fn whole_total(self, n: nat, m: Measure) -> nat
        decreases n,
    {
        if n == 0 || n > self.entries.len() {
            0
        } else {
            self.whole_total((n - 1) as nat, m) + self.whole(n - 1).measured(m)
        }
    }

    /// What those of the first `n` entries bring that lie in `path`.
    spec fn held_total(self, path: Seq<char>, n: nat, m: Measure) -> nat
        decreases n,
    {
        if n == 0 || n > self.entries.len() {
            0
        } else {
            self.held_total(path, (n - 1) as nat, m) + (if self.entries[n - 1].parent@ == path {
                self.whole(n - 1).measured(m)
            } else {
                0
            })
        }
    }

    /// What those of the first `n` entries bring that lie in one of the first
    /// `k` directories.
    spec fn claimed_total(self, k: nat, n: nat, m: Measure) -> nat
        decreases n,
    {
        if n == 0 || n > self.entries.len() {
            0
        } else {
            self.claimed_total(k, (n - 1) as nat, m) + (if self.held_by_first(n - 1, k) {
                self.whole(n - 1).measured(m)
            } else {
                0
            })
        }
    }

    /// How many of the first `n` entries have locations longer than `len`.
    spec fn longer_than(self, len: nat, n: nat) -> nat
        decreases n,
    {
        if n == 0 || n > self.entries.len() {
            0
        } else {
            self.longer_than(len, (n - 1) as nat) + (if self.location(n - 1).len() > len {
                1nat
            } else {
                0
            })
        }
    }
}

/// The location of an entry whose name stands for itself is longer than that
/// of what holds it. Behind a verbatim prefix, where joining spells the
/// components anew, the holder must be spelled that way already.
pub proof fn law_location_is_longer(p: Platform, base: Seq<char>, name: Seq<char>)
    requires
        steady_name(p, name),
        verbatim(p, base) ==> base == comps_text(p, prefix_text(p, base), components(p, base)),
    ensures
        base.len() < joined(p, base, name).len(),
{
    lemma_steady_part(p, name);
    if verbatim(p, base) {
        let c = components(p, base);
        let part = seq![Comp::Normal(name)];
        assert(part.drop_last() =~= Seq::empty());
        assert(extended(c, part.drop_last()) == c);
        assert(extended(c, part) == c.push(Comp::Normal(name)));
        assert(c.push(Comp::Normal(name)).drop_last() =~= c);
    }
}

/// Fewer locations are longer than `b` than are longer than `a`, the shorter
/// one: by at least one where a location lies between.
proof fn lemma_longer_than(listing: Listing, a: nat, b: nat, n: nat, w: int)
    requires
        a <= b,
        n <= listing.entries.len(),
    ensures
        listing.longer_than(b, n) <= listing.longer_than(a, n) <= n,
        0 <= w < n && a < listing.location(w).len() <= b ==> listing.longer_than(b, n)
            < listing.longer_than(a, n),
        0 <= w < n && listing.location(w).len() <= a ==> listing.longer_than(a, n) < n,
    decreases n,
{
    if n > 0 {
        lemma_longer_than(listing, a, b, (n - 1) as nat, w);
    }
}

proof fn lemma_places(listing: Listing, path: Seq<char>, n: nat, q: int)
    requires
        n <= listing.entries.len(),
        0 <= q < places(listing.entries, path, n).len(),
    ensures
        0 <= places(listing.entries, path, n)[q] < n,
        listing.entries[places(listing.entries, path, n)[q]].parent@ == path,
    decreases n,
{
    let before = places(listing.entries, path, (n - 1) as nat);
    if q < before.len() {
        lemma_places(listing, path, (n - 1) as nat, q);
    }
}

/// There is always room for what an entry holds.
proof fn lemma_room(listing: Listing, root: Seq<char>, j: int, room: nat)
    requires
        listing.tidy(root),
        0 <= j < listing.entries.len(),
        room >= listing.longer_than(listing.location(j).len(), listing.entries.len()),
    ensures
        listing.entry_node(j, room) == listing.whole(j),
    decreases listing.longer_than(listing.location(j).len(), listing.entries.len()),
{
    let n = listing.entries.len();
    if listing.entries[j].is_dir {
        let path = listing.location(j);
        let at = places(listing.entries, path, n);
        let some = listing.children_of(path, room);
        let all = listing.children_of(path, n);
        assert forall|q: int| 0 <= q < at.len() implies 0 <= at[q] < n && (listing.longer_than(
            #[trigger] listing.location(at[q]).len(),
            n,
        ) < listing.longer_than(path.len(), n)) by {
            lemma_places(listing, path, n, q);
            assert(listing.entries[at[q]].parent@.len() < listing.location(at[q]).len());
            lemma_longer_than(listing, path.len(), listing.location(at[q]).len(), n, at[q]);
        }
        if room == 0 {
            if at.len() > 0 {
                assert(listing.longer_than(listing.location(at[0]).len(), n)
                    < listing.longer_than(path.len(), n));
            }
            assert(some =~= all);
        } else {
            assert forall|q: int| 0 <= q < at.len() implies some[q] == all[q] by {
                let len = listing.location(at[q]).len();
                assert(listing.longer_than(len, n) < listing.longer_than(path.len(), n));
                lemma_longer_than(listing, path.len(), path.len(), n, j);
                lemma_room(listing, root, at[q], (room - 1) as nat);
                lemma_room(listing, root, at[q], (n - 1) as nat);
            }
            assert(some =~= all);
        }
    }
}

proof fn lemma_held_prefix(
    listing: Listing,
    root: Seq<char>,
    path: Seq<char>,
    i: nat,
    room: nat,
    m: Measure,
)
    requires
        listing.tidy(root),
        i <= listing.entries.len(),
        room + 1 >= listing.entries.len(),
    ensures
        total(
            m,
            Seq::new(
                places(listing.entries, path, i).len(),
                |q: int| listing.entry_node(places(listing.entries, path, i)[q], room),
            ),
        ) == listing.held_total(path, i, m),
    decreases i,
{
    let at = places(listing.entries, path, i);
    let list = Seq::new(at.len(), |q: int| listing.entry_node(at[q], room));
    if i > 0 {
        let k = (i - 1) as nat;
        let len = listing.location(k as int).len();
        let before = places(listing.entries, path, k);
        let short = Seq::new(before.len(), |q: int| listing.entry_node(before[q], room));
        lemma_held_prefix(listing, root, path, k, room, m);
        lemma_longer_than(listing, len, len, listing.entries.len(), k as int);
        lemma_room(listing, root, k as int, room);
        if listing.entries[k as int].parent@ == path {
            assert(list.drop_last() =~= short);
            assert(list.last() == listing.whole(k as int));
        } else {
            assert(list =~= short);
        }
    }
}

/// What is listed in `path` brings what its entries bring.
proof fn lemma_held(listing: Listing, root: Seq<char>, path: Seq<char>, m: Measure)
    requires
        listing.tidy(root),
    ensures
        total(m, listing.children_of(path, listing.entries.len())) == listing.held_total(
            path,
            listing.entries.len(),
            m,
        ),
{
    let n = listing.entries.len();
    if n > 0 {
        let room = (n - 1) as nat;
        lemma_held_prefix(listing, root, path, n, room, m);
        assert(listing.children_of(path, n) =~= Seq::new(
            places(listing.entries, path, n).len(),
            |q: int| listing.entry_node(places(listing.entries, path, n)[q], room),
        ));
    }
}

/// One more directory claims what lies in it, and nothing that was claimed
/// before.
proof fn lemma_claims(listing: Listing, root: Seq<char>, k: nat, n: nat, m: Measure)
    requires
        listing.tidy(root),
        k < listing.entries.len(),
        n <= listing.entries.len(),
    ensures
        listing.claimed_total(k + 1, n, m) == listing.claimed_total(k, n, m) + (
        if listing.entries[k as int].is_dir {
            listing.held_total(listing.location(k as int), n, m)
        } else {
            0
        }),
    decreases n,
{
    if n > 0 {
        lemma_claims(listing, root, k, (n - 1) as nat, m);
        let i = n - 1;
        let here = listing.entries[k as int].is_dir && listing.location(k as int)
            == listing.entries[i].parent@;
        if listing.held_by_first(i, k) {
            let j = choose|j: int|
                0 <= j < k && (#[trigger] listing.entries[j]).is_dir && listing.location(j)
                    == listing.entries[i].parent@;
            assert(listing.held_by_first(i, k + 1));
            if here {
                assert(listing.entries[j].is_dir && listing.entries[k as int].is_dir);
                assert(listing.location(j) != listing.location(k as int));
            }
        } else if listing.held_by_first(i, k + 1) {
            let j = choose|j: int|
                0 <= j < k + 1 && (#[trigger] listing.entries[j]).is_dir && listing.location(j)
                    == listing.entries[i].parent@;
            assert(j == k);
        }
        if here {
            assert(listing.held_by_first(i, k + 1));
        }
    }
}

proof fn lemma_nothing_claimed(listing: Listing, n: nat, m: Measure)
    requires
        n <= listing.entries.len(),
    ensures
        listing.claimed_total(0, n, m) == 0,
    decreases n,
{
    if n > 0 {
        lemma_nothing_claimed(listing, (n - 1) as nat, m);
        assert(!listing.held_by_first(n - 1, 0));
    }
}

/// Entries with all they hold bring what they bring by themselves, and what
/// lies in them.
proof fn lemma_whole(listing: Listing, root: Seq<char>, k: nat, m: Measure)
    requires
        listing.tidy(root),
        k <= listing.entries.len(),
    ensures
        listing.whole_total(k, m) == listing.own_total(k, m) + listing.claimed_total(
            k,
            listing.entries.len(),
            m,
        ),
    decreases k,
{
    let n = listing.entries.len();
    if k == 0 {
        lemma_nothing_claimed(listing, n, m);
    } else {
        let i = (k - 1) as nat;
        lemma_whole(listing, root, i, m);
        lemma_claims(listing, root, i, n, m);
        let e = listing.entries[i as int];
        if e.is_dir {
            let path = listing.location(i as int);
            lemma_held(listing, root, path, m);
            lemma_adopted(Node::leaf(e.name@, path, true), listing.children_of(path, n));
        }
    }
}

/// Every entry either lies in the root or is claimed by a directory.
proof fn lemma_all_placed(listing: Listing, root: Seq<char>, n: nat, m: Measure)
    requires
        listing.tidy(root),
        n <= listing.entries.len(),
    ensures
        listing.whole_total(n, m) == listing.held_total(root, n, m) + listing.claimed_total(
            listing.entries.len(),
            n,
            m,
        ),
    decreases n,
{
    if n > 0 {
        lemma_all_placed(listing, root, (n - 1) as nat, m);
        let e = listing.entries[n - 1];
        if e.parent@ == root {
            assert(!listing.held_by_first(n - 1, listing.entries.len()));
        } else {
            assert(listing.held_by_first(n - 1, listing.entries.len()));
        }
    }
}

/// Measurement is exhaustive: the totals of a scan are the sums over all
/// entries that the walk kept, in whatever order it came by them and whatever
/// is displayed of them.
pub proof fn law_every_entry_counts(reading: ScanReading, options: ScanOptions)
    requires
        reading.is_dir,
        reading.listing(options).tidy(reading.canonical@),
    ensures
        ({
            let listing = reading.listing(options);
            let tree = reading.tree(options);
            let n = reading.entries@.len();
            &&& tree.size == listing.own_total(n, Measure::Bytes)
            &&& tree.apparent_size == listing.own_total(n, Measure::Logical)
            &&& tree.file_count == listing.own_total(n, Measure::Files)
            &&& tree.dir_count == listing.own_total(n, Measure::Directories)
        }),
{
    let listing = reading.listing(options);
    let root = reading.canonical@;
    let n = listing.entries.len();
    let list = listing.children_of(root, n);
    lemma_adopted(reading.root_node(options), list);
    assert forall|m: Measure| #[trigger] total(m, list) == listing.own_total(n, m) by {
        lemma_whole(listing, root, n, m);
        lemma_all_placed(listing, root, n, m);
        lemma_held(listing, root, root, m);
    }
    assert(total(Measure::Bytes, list) == listing.own_total(n, Measure::Bytes));
    assert(total(Measure::Logical, list) == listing.own_total(n, Measure::Logical));
    assert(total(Measure::Files, list) == listing.own_total(n, Measure::Files));
    assert(total(Measure::Directories, list) == listing.own_total(n, Measure::Directories));
}

} // verus!
