//! File-system paths as text, with the component structure that comparisons
//! are made on.
//!
//! A path is its spelling. Two spellings denote the same location when they
//! have the same components: repeated separators, trailing separators, inner
//! `.` segments and the case of a drive letter do not count, and one path lies
//! under another when the components of the second are a prefix of the
//! components of the first.

use crate::text::{
    ascii_letter, chars_of, is_ascii_letter, same_text, string_of,
};
use vstd::prelude::*;
use vstd::string::*;

verus! {

/// The operating-system family whose path syntax and locations apply.
#[derive(Debug, Clone, Copy, PartialEq, Eq, Structural)]
pub enum Platform {
    Linux,
    Macos,
    OtherUnix,
    Windows,
}

impl Platform {
    /// Whether this is a Unix family.
    pub open spec fn unix(self) -> bool {
        self != Platform::Windows
    }

    pub fn is_unix(self) -> (yes: bool)
        ensures
            yes == self.unix(),
    {
        self != Platform::Windows
    }
}

/// A path, held as it is spelled.
#[derive(Debug, PartialEq, Eq)]
pub struct PathBuf {
    pub text: String,
}

impl View for PathBuf {
    type V = Seq<char>;

    open spec fn view(&self) -> Seq<char> {
        self.text@
    }
}

impl Clone for PathBuf {
    fn clone(&self) -> (out: Self)
        ensures
            out == *self,
    {
        PathBuf { text: self.text.clone() }
    }
}

/// The forms of a Windows prefix.
#[derive(Debug, Clone, Copy, PartialEq, Eq, Structural)]
pub enum PrefixKind {
    /// `C:`
    Disk,
    /// `\\server\share`
    Share,
    /// `\\.\device`
    Device,
    /// `\\?\name`
    Verbatim,
    /// `\\?\UNC\server\share`
    VerbatimShare,
    /// `\\?\C:`
    VerbatimDisk,
}

impl PrefixKind {
    /// Whether what follows the prefix is taken as it stands: only `\`
    /// separates there, and `.` is a component.
    pub open spec fn verbatim(self) -> bool {
        self == PrefixKind::Verbatim || self == PrefixKind::VerbatimShare || self
            == PrefixKind::VerbatimDisk
    }

    fn is_verbatim(self) -> (yes: bool)
        ensures
            yes == self.verbatim(),
    {
        self == PrefixKind::Verbatim || self == PrefixKind::VerbatimShare || self
            == PrefixKind::VerbatimDisk
    }
}

/// A Windows prefix: its form, and the names in it. The name of a drive is
/// its letter in upper case; only shares have a second name.
#[derive(Debug)]
pub struct Prefix {
    pub kind: PrefixKind,
    pub name: String,
    pub share: String,
}

/// The mathematical value of a [`Prefix`].
pub struct Drive {
    pub kind: PrefixKind,
    pub name: Seq<char>,
    pub share: Seq<char>,
}

impl View for Prefix {
    type V = Drive;

    open spec fn view(&self) -> Drive {
        Drive { kind: self.kind, name: self.name@, share: self.share@ }
    }
}

impl Drive {
    /// Number of characters that the prefix takes.
    pub open spec fn len(self) -> int {
        let share = if self.share.len() > 0 {
            1 + self.share.len() as int
        } else {
            0
        };
        match self.kind {
            PrefixKind::Disk => 2,
            PrefixKind::Share => 2 + self.name.len() + share,
            PrefixKind::Device => 4 + self.name.len() as int,
            PrefixKind::Verbatim => 4 + self.name.len() as int,
            PrefixKind::VerbatimShare => 8 + self.name.len() + share,
            PrefixKind::VerbatimDisk => 6,
        }
    }
}

/// One component of a path.
#[derive(Debug)]
pub enum Component {
    Prefix(Prefix),
    RootDir,
    CurDir,
    ParentDir,
    Normal(String),
}

/// The mathematical value of a [`Component`].
pub enum Comp {
    Prefix(Drive),
    Root,
    Cur,
    Parent,
    Normal(Seq<char>),
}

impl View for Component {
    type V = Comp;

    open spec fn view(&self) -> Comp {
        match self {
            Component::Prefix(prefix) => Comp::Prefix(prefix@),
            Component::RootDir => Comp::Root,
            Component::CurDir => Comp::Cur,
            Component::ParentDir => Comp::Parent,
            Component::Normal(text) => Comp::Normal(text@),
        }
    }
}

/// The values of a component list.
pub open spec fn comps_view(list: Seq<Component>) -> Seq<Comp> {
    list.map_values(|c: Component| c@)
}

// ---------------------------------------------------------------------------
// Component structure
// ---------------------------------------------------------------------------
/// `/` everywhere, and `\` on Windows.
pub open spec fn separator(p: Platform, c: char) -> bool {
    c == '/' || (p == Platform::Windows && c == '\\')
}

/// The separator that new paths are spelled with.
pub open spec fn main_separator(p: Platform) -> char {
    if p == Platform::Windows {
        '\\'
    } else {
        '/'
    }
}

/// What separates the segments of a path: behind a verbatim prefix `\` alone.
pub open spec fn cuts(p: Platform, verbatim: bool, c: char) -> bool {
    if verbatim {
        c == '\\'
    } else {
        separator(p, c)
    }
}

/// Position of the first separator at or after `from`, or the end of `s`.
pub open spec fn segment_end(p: Platform, verbatim: bool, s: Seq<char>, from: int) -> int
    decreases s.len() - from,
{
    if from < 0 || from >= s.len() || cuts(p, verbatim, s[from]) {
        from
    } else {
        segment_end(p, verbatim, s, from + 1)
    }
}

/// ASCII upper case of a drive letter.
pub open spec fn upper_char(c: char) -> char {
    if 'a' <= c && c <= 'z' {
        (c as u8 - 32) as u8 as char
    } else {
        c
    }
}

/// Whether `s` has a drive letter and a colon at `at`.
pub open spec fn drive_at(s: Seq<char>, at: int) -> bool {
    at + 2 <= s.len() && ascii_letter(s[at]) && s[at + 1] == ':'
}

/// The server and share that stand in `s` from position `from` on.
pub open spec fn share_at(verbatim: bool, s: Seq<char>, from: int) -> (Seq<char>, Seq<char>) {
    let p = Platform::Windows;
    let server_end = segment_end(p, verbatim, s, from);
    let share_end = segment_end(p, verbatim, s, server_end + 1);
    if server_end < s.len() {
        (s.subrange(from, server_end), s.subrange(server_end + 1, share_end))
    } else {
        (s.subrange(from, server_end), Seq::empty())
    }
}

/// Whether `s` starts with `\\?\`, spelled just so.
pub open spec fn opens_verbatim(s: Seq<char>) -> bool {
    s.len() >= 4 && s[0] == '\\' && s[1] == '\\' && s[2] == '?' && s[3] == '\\'
}

/// Whether `UNC` and a separator follow behind `\\?\`.
pub open spec fn opens_share(s: Seq<char>) -> bool {
    s.len() >= 8 && s[4] == 'U' && s[5] == 'N' && s[6] == 'C' && separator(
        Platform::Windows,
        s[7],
    )
}

/// Whether `s` starts with `\\.\`.
pub open spec fn opens_device(s: Seq<char>) -> bool {
    s.len() >= 4 && s[2] == '.' && separator(Platform::Windows, s[3])
}

/// The prefix that the Windows path `s` starts with.
pub open spec fn windows_prefix(s: Seq<char>) -> Option<Drive> {
    let p = Platform::Windows;
    let none = Seq::<char>::empty();
    if s.len() >= 2 && separator(p, s[0]) && separator(p, s[1]) {
        if opens_verbatim(s) {
            if opens_share(s) {
                let (name, share) = share_at(true, s, 8);
                Some(Drive { kind: PrefixKind::VerbatimShare, name, share })
            } else if drive_at(s, 4) && (s.len() == 6 || separator(p, s[6])) {
                Some(
                    Drive {
                        kind: PrefixKind::VerbatimDisk,
                        name: seq![upper_char(s[4])],
                        share: none,
                    },
                )
            } else {
                let name = s.subrange(4, segment_end(p, true, s, 4));
                Some(Drive { kind: PrefixKind::Verbatim, name, share: none })
            }
        } else if opens_device(s) {
            let name = s.subrange(4, segment_end(p, false, s, 4));
            Some(Drive { kind: PrefixKind::Device, name, share: none })
        } else {
            let (name, share) = share_at(false, s, 2);
            if name.len() > 0 && share.len() > 0 {
                Some(Drive { kind: PrefixKind::Share, name, share })
            } else {
                None
            }
        }
    } else if drive_at(s, 0) {
        Some(Drive { kind: PrefixKind::Disk, name: seq![upper_char(s[0])], share: none })
    } else {
        None
    }
}

/// The prefix that `s` starts with. Only Windows paths have one.
pub open spec fn prefix_of(p: Platform, s: Seq<char>) -> Option<Drive> {
    if p == Platform::Windows {
        windows_prefix(s)
    } else {
        None
    }
}

/// Number of characters taken by the prefix of `s`.
pub open spec fn prefix_len(p: Platform, s: Seq<char>) -> int {
    match prefix_of(p, s) {
        Some(drive) => drive.len(),
        None => 0,
    }
}

/// The prefix of `s` as it is spelled.
pub open spec fn prefix_text(p: Platform, s: Seq<char>) -> Seq<char> {
    s.take(prefix_len(p, s))
}

/// Whether `s` has a verbatim prefix.
pub open spec fn verbatim(p: Platform, s: Seq<char>) -> bool {
    match prefix_of(p, s) {
        Some(drive) => drive.kind.verbatim(),
        None => false,
    }
}

/// Whether a separator stands right behind the prefix of `s`.
pub open spec fn slashed(p: Platform, s: Seq<char>) -> bool {
    let n = prefix_len(p, s);
    n < s.len() && separator(p, s[n])
}

/// Whether `s` has a root: a separator right behind the prefix, or a prefix
/// other than a drive, which always has one.
pub open spec fn rooted(p: Platform, s: Seq<char>) -> bool {
    slashed(p, s) || match prefix_of(p, s) {
        Some(drive) => drive.kind != PrefixKind::Disk,
        None => false,
    }
}

/// Whether `s`, behind a drive if it has one, starts with the segment `.`.
pub open spec fn dotted(p: Platform, s: Seq<char>) -> bool {
    let n = prefix_len(p, s);
    !rooted(p, s) && n < s.len() && s[n] == '.' && (n + 1 == s.len() || separator(p, s[n + 1]))
}

/// Where the prefix, the root and a leading `.` of `s` end.
pub open spec fn body_start(p: Platform, s: Seq<char>) -> int {
    prefix_len(p, s) + (if slashed(p, s) || dotted(p, s) {
        1int
    } else {
        0
    })
}

/// What follows the prefix, the root and a leading `.` in `s`.
pub open spec fn body(p: Platform, s: Seq<char>) -> Seq<char> {
    s.skip(body_start(p, s))
}

/// Whether the root of `s` counts as a component: a verbatim prefix has one
/// only where it is spelled.
pub open spec fn shows_root(p: Platform, s: Seq<char>) -> bool {
    slashed(p, s) || (rooted(p, s) && !verbatim(p, s))
}

/// The components that `s` starts with: the prefix, the root, a leading `.`.
pub open spec fn anchor(p: Platform, s: Seq<char>) -> Seq<Comp> {
    let prefix = match prefix_of(p, s) {
        Some(drive) => seq![Comp::Prefix(drive)],
        None => Seq::empty(),
    };
    if shows_root(p, s) {
        prefix.push(Comp::Root)
    } else if dotted(p, s) && prefix.len() == 0 {
        prefix.push(Comp::Cur)
    } else {
        prefix
    }
}

/// `s` cut at every separator.
pub open spec fn segments(p: Platform, verbatim: bool, s: Seq<char>) -> Seq<Seq<char>>
    decreases s.len(),
{
    if s.len() == 0 {
        seq![Seq::<char>::empty()]
    } else {
        let before = segments(p, verbatim, s.drop_last());
        if cuts(p, verbatim, s.last()) {
            before.push(Seq::empty())
        } else {
            before.drop_last().push(before.last().push(s.last()))
        }
    }
}

/// The components that a list of segments stands for: empty segments vanish,
/// and so does `.` where it is not verbatim; `..` names the parent.
pub open spec fn segment_comps(verbatim: bool, segs: Seq<Seq<char>>) -> Seq<Comp>
    decreases segs.len(),
{
    if segs.len() == 0 {
        Seq::empty()
    } else {
        let before = segment_comps(verbatim, segs.drop_last());
        let seg = segs.last();
        if seg.len() == 0 {
            before
        } else if seg == seq!['.'] {
            if verbatim {
                before.push(Comp::Cur)
            } else {
                before
            }
        } else if seg == seq!['.', '.'] {
            before.push(Comp::Parent)
        } else {
            before.push(Comp::Normal(seg))
        }
    }
}

/// The components behind the anchor of `s`.
pub open spec fn body_comps(p: Platform, s: Seq<char>) -> Seq<Comp> {
    segment_comps(verbatim(p, s), segments(p, verbatim(p, s), body(p, s)))
}

/// The components of the path spelled `s`.
pub open spec fn components(p: Platform, s: Seq<char>) -> Seq<Comp> {
    anchor(p, s) + body_comps(p, s)
}

/// Whether `s` lies at or under `base`: the components of `base` are a prefix
/// of those of `s`.
pub open spec fn under(p: Platform, s: Seq<char>, base: Seq<char>) -> bool {
    components(p, base).is_prefix_of(components(p, s))
}

/// Whether two spellings denote the same location.
pub open spec fn same_location(p: Platform, a: Seq<char>, b: Seq<char>) -> bool {
    components(p, a) == components(p, b)
}

/// Whether a component list can lose its last component.
pub open spec fn comps_have_parent(c: Seq<Comp>) -> bool {
    c.len() > 0 && !(c.last() is Prefix) && !(c.last() is Root)
}

/// Whether the path has a parent: bare roots, bare drives and the empty path
/// have none.
pub open spec fn has_parent(p: Platform, s: Seq<char>) -> bool {
    comps_have_parent(components(p, s))
}

/// `b` without what its end spells but does not mean: separators, and `.`
/// segments where they are not verbatim.
pub open spec fn settled(p: Platform, verbatim: bool, b: Seq<char>) -> Seq<char>
    decreases b.len(),
{
    if b.len() > 0 && (cuts(p, verbatim, b.last()) || (!verbatim && segments(
        p,
        verbatim,
        b,
    ).last() == seq!['.'])) {
        settled(p, verbatim, b.drop_last())
    } else {
        b
    }
}

/// The path one level up: the beginning of `s` up to its last component.
pub open spec fn parent_text(p: Platform, s: Seq<char>) -> Seq<char> {
    let v = verbatim(p, s);
    let b = settled(p, v, body(p, s));
    if b.len() == 0 {
        s.take(prefix_len(p, s))
    } else {
        let last = segments(p, v, b).last();
        s.take(body_start(p, s)) + settled(p, v, b.take(b.len() - last.len()))
    }
}

/// An absolute path has a root, and on Windows a prefix as well.
pub open spec fn absolute(p: Platform, s: Seq<char>) -> bool {
    rooted(p, s) && (p != Platform::Windows || prefix_of(p, s) is Some)
}

/// The spelling of a component list whose prefix is spelled `prefix`.
pub open spec fn comps_text(p: Platform, prefix: Seq<char>, c: Seq<Comp>) -> Seq<char>
    decreases c.len(),
{
    if c.len() == 0 {
        Seq::empty()
    } else {
        let before = c.drop_last();
        let head = comps_text(p, prefix, before);
        match c.last() {
            Comp::Prefix(_) => prefix,
            Comp::Root => head.push(main_separator(p)),
            Comp::Cur => glued(p, before, head, seq!['.']),
            Comp::Parent => glued(p, before, head, seq!['.', '.']),
            Comp::Normal(text) => glued(p, before, head, text),
        }
    }
}

/// `name` behind `head`, with a separator between them where one is needed:
/// neither at the beginning nor behind the root.
pub open spec fn glued(p: Platform, before: Seq<Comp>, head: Seq<char>, name: Seq<char>) -> Seq<
    char,
> {
    if before.len() == 0 || before.last() is Root {
        head + name
    } else {
        head.push(main_separator(p)) + name
    }
}

/// The components `base` with those of a relative or rooted path added: a
/// root takes back all but the prefix, `..` takes back a name.
pub open spec fn extended(base: Seq<Comp>, part: Seq<Comp>) -> Seq<Comp>
    decreases part.len(),
{
    if part.len() == 0 {
        base
    } else {
        let before = extended(base, part.drop_last());
        match part.last() {
            Comp::Root => if before.len() > 1 {
                before.take(1).push(Comp::Root)
            } else {
                before.push(Comp::Root)
            },
            Comp::Cur => before,
            Comp::Parent => if before.len() > 0 && before.last() is Normal {
                before.drop_last()
            } else {
                before
            },
            other => before.push(other),
        }
    }
}

/// The spelling of `part` resolved against `base`: an absolute `part` stands
/// alone, behind a verbatim prefix the components are spelled anew, a rooted
/// `part` keeps the prefix of `base`, any other is appended.
pub open spec fn joined(p: Platform, base: Seq<char>, part: Seq<char>) -> Seq<char> {
    if prefix_of(p, part) is Some || absolute(p, part) {
        part
    } else if verbatim(p, base) && part.len() > 0 {
        comps_text(
            p,
            prefix_text(p, base),
            extended(components(p, base), components(p, part)),
        )
    } else if rooted(p, part) {
        prefix_text(p, base) + part
    } else if base.len() == 0 || separator(p, base.last()) || bare_drive(p, base) {
        base + part
    } else {
        base.push(main_separator(p)) + part
    }
}

/// Whether `s` is a drive and nothing else: `C:` and `x` make `C:x`.
pub open spec fn bare_drive(p: Platform, s: Seq<char>) -> bool {
    p == Platform::Windows && s.len() == 2 && drive_at(s, 0)
}

// ---------------------------------------------------------------------------
// Executable counterparts
// ---------------------------------------------------------------------------
fn is_separator(p: Platform, c: char) -> (yes: bool)
    ensures
        yes == separator(p, c),
{
    c == '/' || (p == Platform::Windows && c == '\\')
}

fn main_separator_of(p: Platform) -> (c: char)
    ensures
        c == main_separator(p),
{
    if p == Platform::Windows {
        '\\'
    } else {
        '/'
    }
}

fn is_cut(p: Platform, verbatim: bool, c: char) -> (yes: bool)
    ensures
        yes == cuts(p, verbatim, c),
{
    if verbatim {
        c == '\\'
    } else {
        is_separator(p, c)
    }
}

fn find_segment_end(p: Platform, verbatim: bool, s: &Vec<char>, from: usize) -> (end: usize)
    requires
        from <= s@.len(),
    ensures
        end == segment_end(p, verbatim, s@, from as int),
        from <= end <= s@.len(),
{
    let mut i: usize = from;
    while i < s.len() && !is_cut(p, verbatim, s[i])
        invariant
            from <= i <= s@.len(),
            segment_end(p, verbatim, s@, from as int) == segment_end(p, verbatim, s@, i as int),
        decreases s.len() - i,
    {
        i += 1;
    }
    i
}

fn upper_char_of(c: char) -> (out: char)
    ensures
        out == upper_char(c),
{
    if 'a' <= c && c <= 'z' {
        (c as u8 - 32) as char
    } else {
        c
    }
}

fn is_drive_at(s: &Vec<char>, at: usize) -> (yes: bool)
    requires
        at <= 4,
    ensures
        yes == drive_at(s@, at as int),
{
    at + 2 <= s.len() && is_ascii_letter(s[at]) && s[at + 1] == ':'
}

fn drive_prefix(kind: PrefixKind, letter: char) -> (out: Prefix)
    ensures
        out@ == (Drive { kind, name: seq![upper_char(letter)], share: Seq::empty() }),
{
    let mut name = String::new();
    name.push(upper_char_of(letter));
    assert(name@ =~= seq![upper_char(letter)]);
    Prefix { kind, name, share: String::new() }
}

fn read_share(verbatim: bool, s: &Vec<char>, from: usize, kind: PrefixKind) -> (out: Prefix)
    requires
        from <= s@.len(),
    ensures
        out@ == (Drive {
            kind,
            name: share_at(verbatim, s@, from as int).0,
            share: share_at(verbatim, s@, from as int).1,
        }),
        from + out.name@.len() <= s@.len(),
        out.share@.len() > 0 ==> from + out.name@.len() + 1 + out.share@.len() <= s@.len(),
{
    let p = Platform::Windows;
    let server_end = find_segment_end(p, verbatim, s, from);
    let name = string_of(s, from, server_end);
    let share = if server_end < s.len() {
        let share_end = find_segment_end(p, verbatim, s, server_end + 1);
        string_of(s, server_end + 1, share_end)
    } else {
        String::new()
    };
    Prefix { kind, name, share }
}

fn read_device(verbatim: bool, s: &Vec<char>, kind: PrefixKind) -> (out: Prefix)
    requires
        s@.len() >= 4,
    ensures
        out@ == (Drive {
            kind,
            name: s@.subrange(4, segment_end(Platform::Windows, verbatim, s@, 4)),
            share: Seq::empty(),
        }),
        4 + out.name@.len() <= s@.len(),
{
    let end = find_segment_end(Platform::Windows, verbatim, s, 4);
    Prefix { kind, name: string_of(s, 4, end), share: String::new() }
}

fn read_windows_prefix(s: &Vec<char>) -> (out: Option<Prefix>)
    ensures
        match out {
            Some(prefix) => windows_prefix(s@) == Some(prefix@) && prefix@.len() <= s@.len(),
            None => windows_prefix(s@) is None,
        },
{
    let p = Platform::Windows;
    if s.len() >= 2 && is_separator(p, s[0]) && is_separator(p, s[1]) {
        if s.len() >= 4 && s[0] == '\\' && s[1] == '\\' && s[2] == '?' && s[3] == '\\' {
            if s.len() >= 8 && s[4] == 'U' && s[5] == 'N' && s[6] == 'C' && is_separator(p, s[7]) {
                Some(read_share(true, s, 8, PrefixKind::VerbatimShare))
            } else if is_drive_at(s, 4) && (s.len() == 6 || is_separator(p, s[6])) {
                Some(drive_prefix(PrefixKind::VerbatimDisk, s[4]))
            } else {
                Some(read_device(true, s, PrefixKind::Verbatim))
            }
        } else if s.len() >= 4 && s[2] == '.' && is_separator(p, s[3]) {
            Some(read_device(false, s, PrefixKind::Device))
        } else {
            let prefix = read_share(false, s, 2, PrefixKind::Share);
            if !is_blank(&prefix.name) && !is_blank(&prefix.share) {
                Some(prefix)
            } else {
                None
            }
        }
    } else if is_drive_at(s, 0) {
        Some(drive_prefix(PrefixKind::Disk, s[0]))
    } else {
        None
    }
}

fn is_blank(text: &String) -> (yes: bool)
    ensures
        yes == (text@.len() == 0),
{
    chars_of(text.as_str()).len() == 0
}

fn read_prefix(p: Platform, s: &Vec<char>) -> (out: Option<Prefix>)
    ensures
        match out {
            Some(prefix) => prefix_of(p, s@) == Some(prefix@) && 0 < prefix@.len() <= s@.len(),
            None => prefix_of(p, s@) is None,
        },
{
    if p == Platform::Windows {
        read_windows_prefix(s)
    } else {
        None
    }
}

/// What the beginning of a path is made of.
struct Head {
    prefix: Option<Prefix>,
    len: usize,
    verbatim: bool,
    slashed: bool,
    rooted: bool,
    dotted: bool,
    start: usize,
}

impl Head {
    spec fn of(self, p: Platform, s: Seq<char>) -> bool {
        &&& prefix_of(p, s) == match self.prefix {
            Some(prefix) => Some(prefix@),
            None => None,
        }
        &&& self.len == prefix_len(p, s)
        &&& self.len <= s.len()
        &&& self.verbatim == verbatim(p, s)
        &&& self.slashed == slashed(p, s)
        &&& self.rooted == rooted(p, s)
        &&& self.dotted == dotted(p, s)
        &&& self.start == body_start(p, s)
        &&& self.len <= self.start <= s.len()
    }
}

fn read_head(p: Platform, s: &Vec<char>) -> (out: Head)
    ensures
        out.of(p, s@),
{
    let prefix = read_prefix(p, s);
    let (len, verbatim, anchored): (usize, bool, bool) = match &prefix {
        Some(prefix) => (
            prefix_length(prefix, s),
            prefix.kind.is_verbatim(),
            prefix.kind != PrefixKind::Disk,
        ),
        None => (0, false, false),
    };
    let slashed = len < s.len() && is_separator(p, s[len]);
    let rooted = slashed || anchored;
    let dotted = !rooted && len < s.len() && s[len] == '.' && (len + 1 == s.len() || is_separator(
        p,
        s[len + 1],
    ));
    let start = if slashed || dotted {
        len + 1
    } else {
        len
    };
    Head { prefix, len, verbatim, slashed, rooted, dotted, start }
}

fn prefix_length(prefix: &Prefix, s: &Vec<char>) -> (n: usize)
    requires
        prefix@.len() <= s@.len(),
    ensures
        n == prefix@.len(),
{
    let limit: usize = s.len();
    let name = chars_of(prefix.name.as_str()).len();
    let share = chars_of(prefix.share.as_str()).len();
    match prefix.kind {
        PrefixKind::Disk => 2,
        PrefixKind::Share => if share > 0 {
            2 + name + 1 + share
        } else {
            2 + name
        },
        PrefixKind::Device => 4 + name,
        PrefixKind::Verbatim => 4 + name,
        PrefixKind::VerbatimShare => if share > 0 {
            8 + name + 1 + share
        } else {
            8 + name
        },
        PrefixKind::VerbatimDisk => 6,
    }
}

/// The segments of `s` from position `n` on.
fn segments_of(p: Platform, verbatim: bool, s: &Vec<char>, n: usize) -> (out: Vec<Vec<char>>)
    requires
        n <= s@.len(),
    ensures
        out@.map_values(|seg: Vec<char>| seg@) == segments(p, verbatim, s@.skip(n as int)),
{
    let ghost rest = s@.skip(n as int);
    let mut done: Vec<Vec<char>> = Vec::new();
    let mut current: Vec<char> = Vec::new();
    let mut i: usize = n;
    assert(rest.take(0) =~= Seq::empty());
    assert(done@.map_values(|seg: Vec<char>| seg@).push(current@) =~= segments(
        p,
        verbatim,
        rest.take(0),
    ));
    while i < s.len()
        invariant
            n <= i <= s@.len(),
            rest == s@.skip(n as int),
            done@.map_values(|seg: Vec<char>| seg@).push(current@) == segments(
                p,
                verbatim,
                rest.take(i - n),
            ),
        decreases s.len() - i,
    {
        let c = s[i];
        let ghost before = done@.map_values(|seg: Vec<char>| seg@);
        let ghost taken = rest.take(i + 1 - n);
        assert(taken.drop_last() =~= rest.take(i - n));
        assert(taken.last() == c);
        assert(before.push(current@).drop_last() =~= before);
        if is_cut(p, verbatim, c) {
            let ghost finished = current@;
            done.push(current);
            current = Vec::new();
            assert(done@.map_values(|seg: Vec<char>| seg@) =~= before.push(finished));
            assert(current@ =~= Seq::<char>::empty());
        } else {
            current.push(c);
        }
        i += 1;
    }
    assert(rest.take(s@.len() - n) =~= rest);
    let ghost before = done@.map_values(|seg: Vec<char>| seg@);
    let ghost last = current@;
    done.push(current);
    assert(done@.map_values(|seg: Vec<char>| seg@) =~= before.push(last));
    done
}

/// Length of the last segment of the first `len` characters of `s` behind
/// `start`.
fn last_segment_len(p: Platform, verbatim: bool, s: &Vec<char>, start: usize, len: usize) -> (n:
    usize)
    requires
        start + len <= s@.len(),
    ensures
        n <= len,
        segments(p, verbatim, s@.subrange(start as int, start + len)).last() == s@.subrange(
            start + len - n,
            start + len,
        ),
    decreases len,
{
    let ghost b = s@.subrange(start as int, start + len);
    let limit: usize = s.len();
    if len == 0 {
        assert(s@.subrange(start + len - 0, start + len) =~= Seq::<char>::empty());
        return 0;
    }
    assert(b.drop_last() =~= s@.subrange(start as int, start + (len - 1)));
    assert(b.last() == s@[start + len - 1]);
    if is_cut(p, verbatim, s[start + len - 1]) {
        assert(s@.subrange(start + len - 0, start + len) =~= Seq::<char>::empty());
        return 0;
    }
    let n = last_segment_len(p, verbatim, s, start, len - 1);
    assert(s@.subrange(start + (len - 1) - n, start + (len - 1)).push(s@[start + len - 1])
        =~= s@.subrange(start + len - (n + 1), start + len));
    n + 1
}

/// Length of what [`settled`] leaves of the first `len` characters of `s`
/// behind `start`.
fn settled_len(p: Platform, verbatim: bool, s: &Vec<char>, start: usize, len: usize) -> (n: usize)
    requires
        start + len <= s@.len(),
    ensures
        n <= len,
        settled(p, verbatim, s@.subrange(start as int, start + len)) == s@.subrange(
            start as int,
            start + n,
        ),
{
    let ghost whole = settled(p, verbatim, s@.subrange(start as int, start + len));
    let mut n: usize = len;
    while n > 0
        invariant_except_break
            n <= len,
            start + len <= s@.len(),
            settled(p, verbatim, s@.subrange(start as int, start + n)) == whole,
        ensures
            n <= len,
            whole == s@.subrange(start as int, start + n),
        decreases n,
    {
        let ghost b = s@.subrange(start as int, start + n);
        let limit: usize = s.len();
        assert(b.drop_last() =~= s@.subrange(start as int, start + (n - 1)));
        assert(b.last() == s@[start + n - 1]);
        let size = last_segment_len(p, verbatim, s, start, n);
        let dot = !verbatim && size == 1 && s[start + n - 1] == '.';
        proof {
            let last = segments(p, verbatim, b).last();
            if dot {
                assert(last =~= seq!['.']);
            } else if !verbatim && last == seq!['.'] {
                assert(last.len() == 1 && last[0] == '.');
            }
        }
        if !(is_cut(p, verbatim, s[start + n - 1]) || dot) {
            break;
        }
        n = n - 1;
    }
    n
}

impl PathBuf {
    /// The path spelled `text`.
    pub fn new(text: &str) -> (out: Self)
        ensures
            out@ == text@,
    {
        PathBuf { text: text.to_owned() }
    }

    /// The components of this path.
    pub fn components(&self, p: Platform) -> (out: Vec<Component>)
        ensures
            comps_view(out@) == components(p, self@),
    {
        let s = chars_of(self.text.as_str());
        let head = read_head(p, &s);
        let verbatim = head.verbatim;
        let start = head.start;
        let mut out: Vec<Component> = Vec::new();
        let bare = head.prefix.is_none();
        if let Some(prefix) = head.prefix {
            out.push(Component::Prefix(prefix));
        }
        if head.slashed || (head.rooted && !head.verbatim) {
            out.push(Component::RootDir);
        } else if head.dotted && bare {
            out.push(Component::CurDir);
        }
        assert(comps_view(out@) =~= anchor(p, self@));
        let segs = segments_of(p, verbatim, &s, start);
        let ghost values = segments(p, verbatim, s@.skip(start as int));
        let mut i: usize = 0;
        assert(values.take(0) =~= Seq::empty());
        assert(comps_view(out@) =~= anchor(p, self@) + segment_comps(verbatim, values.take(0)));
        while i < segs.len()
            invariant
                i <= segs@.len(),
                segs@.map_values(|seg: Vec<char>| seg@) == values,
                comps_view(out@) == anchor(p, self@) + segment_comps(
                    verbatim,
                    values.take(i as int),
                ),
            decreases segs.len() - i,
        {
            let ghost before = comps_view(out@);
            let ghost taken = values.take(i + 1);
            assert(taken.drop_last() =~= values.take(i as int));
            assert(values.len() == segs@.len());
            assert(taken.last() == segs@[i as int]@);
            let seg = &segs[i];
            if seg.len() == 0 {
            } else if seg.len() == 1 && seg[0] == '.' {
                assert(seg@ =~= seq!['.']);
                if verbatim {
                    out.push(Component::CurDir);
                    assert(comps_view(out@) =~= before.push(Comp::Cur));
                }
            } else if seg.len() == 2 && seg[0] == '.' && seg[1] == '.' {
                assert(seg@ =~= seq!['.', '.']);
                out.push(Component::ParentDir);
                assert(comps_view(out@) =~= before.push(Comp::Parent));
            } else {
                proof {
                    if seg@ == seq!['.'] {
                        assert(seg@.len() == 1 && seg@[0] == '.');
                    }
                    if seg@ == seq!['.', '.'] {
                        assert(seg@.len() == 2 && seg@[0] == '.' && seg@[1] == '.');
                    }
                }
                let name = string_of(seg, 0, seg.len());
                assert(name@ =~= seg@);
                out.push(Component::Normal(name));
                assert(comps_view(out@) =~= before.push(Comp::Normal(seg@)));
            }
            assert(comps_view(out@) =~= anchor(p, self@) + segment_comps(verbatim, taken));
            i += 1;
        }
        assert(values.take(values.len() as int) =~= values);
        out
    }

    /// Whether this path denotes the same location as `other`.
    pub fn same_as(&self, other: &PathBuf, p: Platform) -> (yes: bool)
        ensures
            yes == same_location(p, self@, other@),
    {
        let a = self.components(p);
        let b = other.components(p);
        if a.len() != b.len() {
            assert(comps_view(a@).len() != comps_view(b@).len());
            return false;
        }
        let yes = is_component_prefix(&a, &b);
        proof {
            if yes {
                assert(comps_view(a@) =~= comps_view(b@));
            }
        }
        yes
    }

    /// Whether this path lies at or under `base`.
    pub fn starts_with(&self, base: &PathBuf, p: Platform) -> (yes: bool)
        ensures
            yes == under(p, self@, base@),
    {
        let a = self.components(p);
        let b = base.components(p);
        is_component_prefix(&b, &a)
    }

    /// Whether this path has a parent.
    pub fn has_parent(&self, p: Platform) -> (yes: bool)
        ensures
            yes == has_parent(p, self@),
    {
        let c = self.components(p);
        let n = c.len();
        if n == 0 {
            return false;
        }
        assert(comps_view(c@).last() == c@[n - 1]@);
        match &c[n - 1] {
            Component::Prefix(_) => false,
            Component::RootDir => false,
            _ => true,
        }
    }

    /// The path without its last component, where it can lose one.
    pub fn parent(&self, p: Platform) -> (out: Option<PathBuf>)
        ensures
            out matches Some(parent) ==> has_parent(p, self@) && parent@ == parent_text(p, self@),
            out is None ==> !has_parent(p, self@),
    {
        if !self.has_parent(p) {
            return None;
        }
        let s = chars_of(self.text.as_str());
        let head = read_head(p, &s);
        let start = head.start;
        let v = head.verbatim;
        assert(body(p, self@) =~= s@.subrange(start as int, start + (s@.len() - start)));
        let n = settled_len(p, v, &s, start, s.len() - start);
        if n == 0 {
            let text = string_of(&s, 0, head.len);
            assert(text@ =~= self@.take(head.len as int));
            return Some(PathBuf { text });
        }
        let ghost b = s@.subrange(start as int, start + n);
        let size = last_segment_len(p, v, &s, start, n);
        let rest = n - size;
        assert(b.take(b.len() - size) =~= s@.subrange(start as int, start + rest));
        let m = settled_len(p, v, &s, start, rest);
        let text = string_of(&s, 0, start + m);
        assert(text@ =~= self@.take(start as int) + s@.subrange(start as int, start + m));
        Some(PathBuf { text })
    }

    /// The name of the last component, where that is a name.
    pub fn file_name(&self, p: Platform) -> (out: Option<String>)
        ensures
            match out {
                Some(name) => components(p, self@).len() > 0 && components(p, self@).last()
                    == Comp::Normal(name@),
                None => components(p, self@).len() == 0 || !(components(p, self@).last() is Normal),
            },
    {
        let c = self.components(p);
        let n = c.len();
        if n == 0 {
            return None;
        }
        assert(comps_view(c@).last() == c@[n - 1]@);
        match &c[n - 1] {
            Component::Normal(name) => Some(name.clone()),
            _ => None,
        }
    }

    /// Whether this path is absolute.
    pub fn is_absolute(&self, p: Platform) -> (yes: bool)
        ensures
            yes == absolute(p, self@),
    {
        let s = chars_of(self.text.as_str());
        let head = read_head(p, &s);
        head.rooted && (p != Platform::Windows || head.prefix.is_some())
    }

    /// The prefix of this path as it is spelled.
    pub fn prefix_text(&self, p: Platform) -> (out: String)
        ensures
            out@ == prefix_text(p, self@),
    {
        let s = chars_of(self.text.as_str());
        let head = read_head(p, &s);
        let out = string_of(&s, 0, head.len);
        assert(out@ =~= self@.take(head.len as int));
        out
    }

    /// `part` resolved against this path.
    pub fn join(&self, part: &str, p: Platform) -> (out: PathBuf)
        ensures
            out@ == joined(p, self@, part@),
    {
        let base = chars_of(self.text.as_str());
        let tail = chars_of(part);
        let there = read_head(p, &tail);
        let here = read_head(p, &base);
        if there.prefix.is_some() || (there.rooted && p != Platform::Windows) {
            return PathBuf::new(part);
        }
        if here.verbatim && tail.len() > 0 {
            let mut list = self.components(p);
            let added = PathBuf::new(part).components(p);
            extend(&mut list, added);
            let prefix = self.prefix_text(p);
            return PathBuf { text: spell(p, prefix.as_str(), &list) };
        }
        if there.rooted {
            let mut text = self.prefix_text(p);
            text.append(part);
            return PathBuf { text };
        }
        let mut text = self.text.clone();
        let drive = p == Platform::Windows && base.len() == 2 && is_drive_at(&base, 0);
        if !(base.len() == 0 || is_separator(p, base[base.len() - 1]) || drive) {
            text.push(main_separator_of(p));
        }
        text.append(part);
        PathBuf { text }
    }
}

/// Adds the components `part` to `list`, as [`extended`] says.
fn extend(list: &mut Vec<Component>, part: Vec<Component>)
    ensures
        comps_view(final(list)@) == extended(comps_view(old(list)@), comps_view(part@)),
{
    let ghost base = comps_view(list@);
    let ghost all = comps_view(part@);
    let mut i: usize = 0;
    assert(all.take(0) =~= Seq::empty());
    while i < part.len()
        invariant
            i <= part@.len(),
            all == comps_view(part@),
            comps_view(list@) == extended(base, all.take(i as int)),
        decreases part.len() - i,
    {
        let ghost before = comps_view(list@);
        proof {
            assert(all.take(i + 1).drop_last() =~= all.take(i as int));
            assert(all.take(i + 1).last() == part@[i as int]@);
        }
        match &part[i] {
            Component::RootDir => {
                if list.len() > 1 {
                    list.truncate(1);
                    assert(comps_view(list@) =~= before.take(1));
                }
                let ghost kept = comps_view(list@);
                list.push(Component::RootDir);
                assert(comps_view(list@) =~= kept.push(Comp::Root));
            },
            Component::CurDir => {},
            Component::ParentDir => {
                let n = list.len();
                let named = n > 0 && (match &list[n - 1] {
                    Component::Normal(_) => true,
                    _ => false,
                });
                assert(n > 0 ==> before.last() == list@[n - 1]@);
                if named {
                    let taken = list.pop();
                    assert(comps_view(list@) =~= before.drop_last());
                }
            },
            Component::Prefix(prefix) => {
                list.push(Component::Prefix(prefix.clone()));
                assert(comps_view(list@) =~= before.push(part@[i as int]@));
            },
            Component::Normal(name) => {
                list.push(Component::Normal(name.clone()));
                assert(comps_view(list@) =~= before.push(part@[i as int]@));
            },
        }
        i += 1;
    }
    assert(all.take(all.len() as int) =~= all);
}

/// The spelling of a component list whose prefix is spelled `prefix`.
fn spell(p: Platform, prefix: &str, list: &Vec<Component>) -> (text: String)
    ensures
        text@ == comps_text(p, prefix@, comps_view(list@)),
{
    let ghost all = comps_view(list@);
    let mut text = String::new();
    let mut i: usize = 0;
    assert(all.take(0) =~= Seq::empty());
    while i < list.len()
        invariant
            i <= list@.len(),
            all == comps_view(list@),
            text@ == comps_text(p, prefix@, all.take(i as int)),
        decreases list.len() - i,
    {
        let ghost before = all.take(i as int);
        let ghost taken = all.take(i + 1);
        assert(taken.drop_last() =~= before);
        assert(taken.last() == list@[i as int]@);
        let tight = i == 0 || (match &list[i - 1] {
            Component::RootDir => true,
            _ => false,
        });
        assert(i > 0 ==> before.last() == list@[i - 1]@);
        match &list[i] {
            Component::Prefix(_) => {
                text = prefix.to_owned();
            },
            Component::RootDir => {
                text.push(main_separator_of(p));
            },
            Component::CurDir => {
                glue(p, &mut text, tight, ".");
                proof {
                    reveal_strlit(".");
                    assert("."@ =~= seq!['.']);
                }
            },
            Component::ParentDir => {
                glue(p, &mut text, tight, "..");
                proof {
                    reveal_strlit("..");
                    assert(".."@ =~= seq!['.', '.']);
                }
            },
            Component::Normal(name) => {
                glue(p, &mut text, tight, name.as_str());
            },
        }
        i += 1;
    }
    assert(all.take(all.len() as int) =~= all);
    text
}

fn glue(p: Platform, text: &mut String, tight: bool, name: &str)
    ensures
        final(text)@ == if tight {
            old(text)@ + name@
        } else {
            old(text)@.push(main_separator(p)) + name@
        },
{
    if !tight {
        text.push(main_separator_of(p));
    }
    text.append(name);
}

impl Clone for Prefix {
    fn clone(&self) -> (out: Self)
        ensures
            out@ == self@,
    {
        Prefix { kind: self.kind, name: self.name.clone(), share: self.share.clone() }
    }
}

/// Whether two components are equal.
fn same_component(a: &Component, b: &Component) -> (yes: bool)
    ensures
        yes == (a@ == b@),
{
    match (a, b) {
        (Component::Prefix(x), Component::Prefix(y)) => x.kind == y.kind && same_text(
            x.name.as_str(),
            y.name.as_str(),
        ) && same_text(x.share.as_str(), y.share.as_str()),
        (Component::RootDir, Component::RootDir) => true,
        (Component::CurDir, Component::CurDir) => true,
        (Component::ParentDir, Component::ParentDir) => true,
        (Component::Normal(x), Component::Normal(y)) => same_text(x.as_str(), y.as_str()),
        _ => false,
    }
}

/// Whether the components `a` are a prefix of `b`.
fn is_component_prefix(a: &Vec<Component>, b: &Vec<Component>) -> (yes: bool)
    ensures
        yes == comps_view(a@).is_prefix_of(comps_view(b@)),
{
    if a.len() > b.len() {
        return false;
    }
    let mut i: usize = 0;
    while i < a.len()
        invariant
            i <= a@.len() <= b@.len(),
            forall|j: int| 0 <= j < i ==> comps_view(a@)[j] == comps_view(b@)[j],
        decreases a.len() - i,
    {
        if !same_component(&a[i], &b[i]) {
            assert(comps_view(a@)[i as int] != comps_view(b@)[i as int]);
            assert(comps_view(b@).subrange(0, a@.len() as int)[i as int] == comps_view(
                b@,
            )[i as int]);
            return false;
        }
        i += 1;
    }
    assert(comps_view(b@).subrange(0, a@.len() as int) =~= comps_view(a@));
    true
}

// ---------------------------------------------------------------------------
// Laws
// ---------------------------------------------------------------------------
/// Every location lies under itself.
pub proof fn law_under_reflexive(p: Platform, s: Seq<char>)
    ensures
        under(p, s, s),
{
    let c = components(p, s);
    assert(c.subrange(0, c.len() as int) =~= c);
}

/// What lies under a location lies under everything that location lies under.
pub proof fn law_under_transitive(p: Platform, a: Seq<char>, b: Seq<char>, c: Seq<char>)
    requires
        under(p, a, b),
        under(p, b, c),
    ensures
        under(p, a, c),
{
    let x = components(p, a);
    let y = components(p, b);
    let z = components(p, c);
    assert(x.subrange(0, z.len() as int) =~= x.subrange(0, y.len() as int).subrange(
        0,
        z.len() as int,
    ));
}

/// Two locations that lie under each other are the same.
pub proof fn law_under_antisymmetric(p: Platform, a: Seq<char>, b: Seq<char>)
    requires
        under(p, a, b),
        under(p, b, a),
    ensures
        same_location(p, a, b),
{
    let x = components(p, a);
    let y = components(p, b);
    assert(x.subrange(0, x.len() as int) =~= x);
    assert(y.subrange(0, y.len() as int) =~= y);
}

/// A text without separators.
pub open spec fn seamless(p: Platform, x: Seq<char>) -> bool {
    forall|i: int| 0 <= i < x.len() ==> !separator(p, #[trigger] x[i])
}

/// A text that is a component name: not empty, without separators, and
/// neither `.` nor `..`.
pub open spec fn plain_name(p: Platform, x: Seq<char>) -> bool {
    x.len() > 0 && seamless(p, x) && x != seq!['.'] && x != seq!['.', '.']
}

/// A name that is a single component wherever it is joined: it holds no
/// separator and starts with no drive.
pub open spec fn steady_name(p: Platform, x: Seq<char>) -> bool {
    plain_name(p, x) && prefix_of(p, x) is None
}

/// A path whose names are single components wherever they are joined, and
/// whose prefix cannot take in what follows: a server is named with a share.
pub open spec fn steady(p: Platform, s: Seq<char>) -> bool {
    &&& forall|i: int|
        0 <= i < components(p, s).len() && (#[trigger] components(p, s)[i]) is Normal
            ==> steady_name(p, components(p, s)[i]->Normal_0)
    &&& match prefix_of(p, s) {
        Some(drive) => drive.kind == PrefixKind::VerbatimShare ==> drive.share.len() > 0,
        None => true,
    }
}

proof fn lemma_segment_end_bounds(p: Platform, v: bool, s: Seq<char>, from: int)
    requires
        0 <= from <= s.len(),
    ensures
        from <= segment_end(p, v, s, from) <= s.len(),
        forall|i: int| from <= i < segment_end(p, v, s, from) ==> !cuts(p, v, #[trigger] s[i]),
        segment_end(p, v, s, from) < s.len() ==> cuts(p, v, s[segment_end(p, v, s, from)]),
    decreases s.len() - from,
{
    if from < s.len() && !cuts(p, v, s[from]) {
        lemma_segment_end_bounds(p, v, s, from + 1);
    }
}

/// The first separator is where all characters before it are none.
proof fn lemma_segment_end_is(p: Platform, v: bool, s: Seq<char>, from: int, end: int)
    requires
        0 <= from <= end <= s.len(),
        forall|i: int| from <= i < end ==> !cuts(p, v, #[trigger] s[i]),
        end < s.len() ==> cuts(p, v, s[end]),
    ensures
        segment_end(p, v, s, from) == end,
    decreases end - from,
{
    if from < end {
        assert(!cuts(p, v, s[from]));
        lemma_segment_end_is(p, v, s, from + 1, end);
    }
}

/// A name that ends at `end` in `s` ends there in `t`, which has the same
/// characters up to `end` and nothing or a separator behind them.
proof fn lemma_same_segment(v: bool, s: Seq<char>, t: Seq<char>, from: int, end: int)
    requires
        0 <= from <= end <= s.len(),
        end <= t.len(),
        forall|i: int| 0 <= i < end ==> s[i] == #[trigger] t[i],
        end == segment_end(Platform::Windows, v, s, from),
        end < t.len() ==> t[end] == '\\',
    ensures
        segment_end(Platform::Windows, v, t, from) == end,
        s.subrange(from, end) == t.subrange(from, end),
{
    let p = Platform::Windows;
    lemma_segment_end_bounds(p, v, s, from);
    assert forall|i: int| from <= i < end implies !cuts(p, v, #[trigger] t[i]) by {
        assert(s[i] == t[i]);
    }
    lemma_segment_end_is(p, v, t, from, end);
    assert(s.subrange(from, end) =~= t.subrange(from, end));
}

/// A server and share in `s` are read from `t` as well.
proof fn lemma_same_share(v: bool, s: Seq<char>, t: Seq<char>, from: int)
    requires
        0 <= from <= s.len(),
        ({
            let (name, share) = share_at(v, s, from);
            let n = from + name.len() + if share.len() > 0 {
                1 + share.len() as int
            } else {
                0
            };
            &&& n <= t.len()
            &&& forall|i: int| 0 <= i < n ==> s[i] == #[trigger] t[i]
            &&& n < t.len() ==> t[n] == '\\' && share.len() > 0
        }),
    ensures
        share_at(v, t, from) == share_at(v, s, from),
{
    let p = Platform::Windows;
    let (name, share) = share_at(v, s, from);
    lemma_segment_end_bounds(p, v, s, from);
    let server_end = segment_end(p, v, s, from);
    if server_end < s.len() {
        lemma_segment_end_bounds(p, v, s, server_end + 1);
        let share_end = segment_end(p, v, s, server_end + 1);
        if share.len() > 0 {
            assert(t[server_end] == s[server_end]);
            assert forall|i: int| from <= i < server_end implies !cuts(p, v, #[trigger] t[i]) by {
                assert(s[i] == t[i]);
            }
            lemma_segment_end_is(p, v, t, from, server_end);
            assert(s.subrange(from, server_end) =~= t.subrange(from, server_end));
            lemma_same_segment(v, s, t, server_end + 1, share_end);
        } else {
            lemma_same_segment(v, s, t, from, server_end);
            assert(share =~= Seq::empty());
        }
    } else {
        lemma_same_segment(v, s, t, from, server_end);
    }
}

/// The prefix of `s` with a rooted text behind it, or with nothing, has the
/// same prefix.
proof fn lemma_prefix_kept(s: Seq<char>, tail: Seq<char>)
    requires
        windows_prefix(s) is Some,
        tail.len() > 0 ==> {
            let drive = windows_prefix(s)->0;
            &&& tail[0] == '\\'
            &&& drive.kind == PrefixKind::VerbatimShare ==> drive.share.len() > 0
            &&& drive.kind == PrefixKind::Verbatim ==> drive.len() < s.len()
        },
    ensures
        0 < windows_prefix(s)->0.len() <= s.len(),
        windows_prefix(s.take(windows_prefix(s)->0.len()) + tail) == windows_prefix(s),
{
    let p = Platform::Windows;
    let drive = windows_prefix(s)->0;
    let n = drive.len();
    if s.len() >= 2 && separator(p, s[0]) && separator(p, s[1]) {
        if opens_verbatim(s) {
            if opens_share(s) {
                lemma_segment_end_bounds(p, true, s, 8);
                if segment_end(p, true, s, 8) < s.len() {
                    lemma_segment_end_bounds(p, true, s, segment_end(p, true, s, 8) + 1);
                }
            } else if drive_at(s, 4) && (s.len() == 6 || separator(p, s[6])) {
            } else {
                lemma_segment_end_bounds(p, true, s, 4);
            }
        } else if opens_device(s) {
            lemma_segment_end_bounds(p, false, s, 4);
        } else {
            lemma_segment_end_bounds(p, false, s, 2);
            lemma_segment_end_bounds(p, false, s, segment_end(p, false, s, 2) + 1);
        }
    }
    let t = s.take(n) + tail;
    assert forall|i: int| 0 <= i < n implies s[i] == #[trigger] t[i] by {}
    assert(n < t.len() ==> t[n] == tail[0]);
    if s.len() >= 2 && separator(p, s[0]) && separator(p, s[1]) {
        assert(s[0] == t[0] && s[1] == t[1]);
        if opens_verbatim(s) {
            assert(s[2] == t[2] && s[3] == t[3]);
            if opens_share(s) {
                assert(s[4] == t[4] && s[5] == t[5] && s[6] == t[6] && s[7] == t[7]);
                lemma_same_share(true, s, t, 8);
            } else if drive_at(s, 4) && (s.len() == 6 || separator(p, s[6])) {
                assert(s[4] == t[4] && s[5] == t[5]);
                assert(!opens_share(t));
            } else {
                let end = segment_end(p, true, s, 4);
                assert(n == end);
                lemma_same_segment(true, s, t, 4, end);
                assert(!opens_share(t)) by {
                    if opens_share(t) {
                        if n < 7 {
                            assert(t[n] == 'U' || t[n] == 'N' || t[n] == 'C');
                        } else {
                            assert(s[4] == t[4] && s[5] == t[5] && s[6] == t[6]);
                            if n > 7 {
                                assert(s[7] == t[7]);
                            }
                        }
                    }
                }
                assert(!(drive_at(t, 4) && (t.len() == 6 || separator(p, t[6])))) by {
                    if drive_at(t, 4) && (t.len() == 6 || separator(p, t[6])) {
                        if n < 6 {
                            assert(n == 4 || n == 5);
                            assert(t[n] == '\\');
                        } else {
                            assert(s[4] == t[4] && s[5] == t[5]);
                            if n > 6 {
                                assert(s[6] == t[6]);
                            }
                        }
                    }
                }
            }
        } else if opens_device(s) {
            assert(s[2] == t[2] && s[3] == t[3]);
            lemma_same_segment(false, s, t, 4, segment_end(p, false, s, 4));
        } else {
            lemma_same_share(false, s, t, 2);
            assert(s[2] == t[2] && s[3] == t[3]);
            assert(n >= 5);
        }
    } else {
        assert(s[0] == t[0] && s[1] == t[1]);
    }
}

/// Nothing follows a verbatim prefix but a root.
proof fn lemma_verbatim_whole(s: Seq<char>)
    requires
        verbatim(Platform::Windows, s),
        !slashed(Platform::Windows, s),
    ensures
        prefix_len(Platform::Windows, s) == s.len(),
{
    let p = Platform::Windows;
    lemma_prefix_kept(s, Seq::empty());
    if opens_share(s) {
        lemma_segment_end_bounds(p, true, s, 8);
        if segment_end(p, true, s, 8) < s.len() {
            lemma_segment_end_bounds(p, true, s, segment_end(p, true, s, 8) + 1);
        }
    } else {
        lemma_segment_end_bounds(p, true, s, 4);
    }
}

proof fn lemma_segments_nonempty(p: Platform, v: bool, s: Seq<char>)
    ensures
        segments(p, v, s).len() > 0,
    decreases s.len(),
{
    if s.len() > 0 {
        lemma_segments_nonempty(p, v, s.drop_last());
    }
}

/// Cutting a text and then a name without separators: the name extends the
/// last segment.
proof fn lemma_segments_append(p: Platform, v: bool, s: Seq<char>, x: Seq<char>)
    requires
        forall|i: int| 0 <= i < x.len() ==> !cuts(p, v, #[trigger] x[i]),
    ensures
        segments(p, v, s).len() > 0,
        segments(p, v, s + x) == segments(p, v, s).drop_last().push(segments(p, v, s).last() + x),
    decreases x.len(),
{
    lemma_segments_nonempty(p, v, s);
    if x.len() == 0 {
        assert(s + x =~= s);
        assert(segments(p, v, s).last() + x =~= segments(p, v, s).last());
        assert(segments(p, v, s).drop_last().push(segments(p, v, s).last()) =~= segments(p, v, s));
    } else {
        let short = x.drop_last();
        assert forall|i: int| 0 <= i < short.len() implies !cuts(p, v, #[trigger] short[i]) by {
            assert(short[i] == x[i]);
        }
        lemma_segments_append(p, v, s, short);
        assert((s + x).drop_last() =~= s + short);
        assert(!cuts(p, v, x[x.len() - 1]));
        let before = segments(p, v, s + short);
        assert(before.drop_last() =~= segments(p, v, s).drop_last());
        assert(before.last().push(x.last()) =~= segments(p, v, s).last() + x);
    }
}

/// No segment of a Unix path holds a separator.
proof fn lemma_segments_seamless(p: Platform, s: Seq<char>)
    ensures
        segments(p, false, s).len() > 0,
        forall|i: int|
            0 <= i < segments(p, false, s).len() ==> seamless(p, #[trigger] segments(
                p,
                false,
                s,
            )[i]),
    decreases s.len(),
{
    if s.len() > 0 {
        let before = segments(p, false, s.drop_last());
        lemma_segments_seamless(p, s.drop_last());
        let out = segments(p, false, s);
        assert forall|i: int| 0 <= i < out.len() implies seamless(p, #[trigger] out[i]) by {
            if i < out.len() - 1 {
                assert(out[i] == before[i]);
            } else if !separator(p, s.last()) {
                let x = before[before.len() - 1];
                assert(seamless(p, x));
                assert(out[i] == x.push(s.last()));
                assert forall|k: int| 0 <= k < out[i].len() implies !separator(
                    p,
                    #[trigger] out[i][k],
                ) by {
                    if k < x.len() {
                        assert(out[i][k] == x[k]);
                    }
                }
            }
        }
    }
}

/// What segments stand for: `.`, `..`, or one of them that is a name.
proof fn lemma_segment_comps_shape(v: bool, segs: Seq<Seq<char>>)
    ensures
        forall|i: int|
            0 <= i < segment_comps(v, segs).len() ==> (#[trigger] segment_comps(v, segs)[i] is Cur
                || segment_comps(v, segs)[i] is Parent || (segment_comps(v, segs)[i] is Normal
                && segs.contains(segment_comps(v, segs)[i]->Normal_0) && segment_comps(
                v,
                segs,
            )[i]->Normal_0.len() > 0 && segment_comps(v, segs)[i]->Normal_0 != seq!['.']
                && segment_comps(v, segs)[i]->Normal_0 != seq!['.', '.'])),
    decreases segs.len(),
{
    if segs.len() > 0 {
        let short = segs.drop_last();
        lemma_segment_comps_shape(v, short);
        let before = segment_comps(v, short);
        let out = segment_comps(v, segs);
        assert(segs[segs.len() - 1] == segs.last());
        assert forall|i: int| 0 <= i < out.len() implies (#[trigger] out[i] is Cur
            || out[i] is Parent || (out[i] is Normal && segs.contains(out[i]->Normal_0)
            && out[i]->Normal_0.len() > 0 && out[i]->Normal_0 != seq!['.'] && out[i]->Normal_0
            != seq!['.', '.'])) by {
            if i < before.len() {
                assert(out[i] == before[i]);
                if out[i] is Normal {
                    let k = choose|k: int| 0 <= k < short.len() && short[k] == out[i]->Normal_0;
                    assert(segs[k] == short[k]);
                }
            }
        }
    }
}

/// Components behind an anchor: `.`, `..`, or a name that stands for itself.
pub open spec fn steady_comps(p: Platform, c: Seq<Comp>) -> bool {
    forall|i: int|
        0 <= i < c.len() ==> (#[trigger] c[i] is Cur || c[i] is Parent || (c[i] is Normal
            && steady_name(p, c[i]->Normal_0)))
}

/// A list of names that stand for themselves.
pub open spec fn steady_names(p: Platform, c: Seq<Comp>) -> bool {
    forall|i: int|
        0 <= i < c.len() ==> ((#[trigger] c[i]) is Normal && steady_name(p, c[i]->Normal_0))
}

pub proof fn lemma_body_steady(p: Platform, s: Seq<char>)
    requires
        p.unix() || steady(p, s),
    ensures
        steady_comps(p, body_comps(p, s)),
{
    let v = verbatim(p, s);
    let segs = segments(p, v, body(p, s));
    let list = body_comps(p, s);
    lemma_segment_comps_shape(v, segs);
    if p.unix() {
        lemma_segments_seamless(p, body(p, s));
    }
    assert forall|i: int| 0 <= i < list.len() implies (#[trigger] list[i] is Cur
        || list[i] is Parent || (list[i] is Normal && steady_name(p, list[i]->Normal_0))) by {
        let k = anchor(p, s).len() + i;
        assert(components(p, s)[k] == list[i]);
    }
}

/// How names are spelled behind the root.
pub open spec fn names_text(p: Platform, names: Seq<Comp>) -> Seq<char>
    decreases names.len(),
{
    if names.len() == 0 {
        Seq::empty()
    } else if names.len() == 1 {
        names[0]->Normal_0
    } else {
        names_text(p, names.drop_last()).push(main_separator(p)) + names.last()->Normal_0
    }
}

proof fn lemma_short_names(p: Platform, names: Seq<Comp>)
    requires
        steady_names(p, names),
        names.len() > 0,
    ensures
        steady_names(p, names.drop_last()),
        names.last() is Normal,
        steady_name(p, names.last()->Normal_0),
        names == names.drop_last().push(Comp::Normal(names.last()->Normal_0)),
{
    let short = names.drop_last();
    assert forall|i: int| 0 <= i < short.len() implies ((#[trigger] short[i]) is Normal
        && steady_name(p, short[i]->Normal_0)) by {
        assert(short[i] == names[i]);
    }
    assert(names[names.len() - 1] is Normal);
    assert(names =~= short.push(names.last()));
}

/// A name holds nothing that cuts.
proof fn lemma_steady_uncut(p: Platform, v: bool, x: Seq<char>)
    requires
        steady_name(p, x),
        v ==> p == Platform::Windows,
    ensures
        forall|i: int| 0 <= i < x.len() ==> !cuts(p, v, #[trigger] x[i]),
        !cuts(p, v, x.last()),
        !separator(p, x.last()),
{
    assert forall|i: int| 0 <= i < x.len() implies !cuts(p, v, #[trigger] x[i]) by {
        assert(!separator(p, x[i]));
    }
    assert(!separator(p, x[x.len() - 1]));
}

/// What spelled names are cut into.
proof fn lemma_names_text(p: Platform, v: bool, names: Seq<Comp>)
    requires
        steady_names(p, names),
        v ==> p == Platform::Windows,
    ensures
        ({
            let b = names_text(p, names);
            let segs = segments(p, v, b);
            &&& segment_comps(v, segs) == names
            &&& names.len() == 0 ==> b.len() == 0
            &&& names.len() > 0 ==> {
                let x = names.last()->Normal_0;
                &&& b.len() >= x.len() > 0
                &&& segs.last() == x
                &&& b.last() == x.last()
                &&& settled(p, v, b) == b
                &&& settled(p, v, b.take(b.len() - x.len())) == names_text(p, names.drop_last())
            }
        }),
    decreases names.len(),
{
    let b = names_text(p, names);
    let empty = Seq::<char>::empty();
    assert(segments(p, v, empty) == seq![empty]);
    assert(seq![empty].drop_last() =~= Seq::<Seq<char>>::empty());
    assert(segment_comps(v, seq![empty].drop_last()) =~= Seq::<Comp>::empty());
    assert(segment_comps(v, seq![empty]) =~= Seq::<Comp>::empty());
    if names.len() == 0 {
        assert(names =~= Seq::<Comp>::empty());
    } else {
        let short = names.drop_last();
        let x = names.last()->Normal_0;
        lemma_short_names(p, names);
        lemma_steady_uncut(p, v, x);
        lemma_names_text(p, v, short);
        let head = b.take(b.len() - x.len());
        if names.len() == 1 {
            assert(names[0] == names.last());
            assert(empty + x =~= x);
            lemma_segments_append(p, v, empty, x);
            assert(segments(p, v, b) =~= seq![x]);
            assert(seq![x].drop_last() =~= Seq::<Seq<char>>::empty());
            assert(short =~= Seq::<Comp>::empty());
            assert(segment_comps(v, seq![x]) =~= names);
            assert(head =~= empty);
            assert(b.last() == x.last());
        } else {
            let old_b = names_text(p, short);
            let cut = old_b.push(main_separator(p));
            assert(b == cut + x);
            assert(head =~= cut);
            lemma_segments_append(p, v, cut, x);
            lemma_segments_nonempty(p, v, old_b);
            assert(cut.drop_last() =~= old_b);
            assert(cut.last() == main_separator(p));
            assert(cuts(p, v, main_separator(p)));
            assert(segments(p, v, cut) == segments(p, v, old_b).push(empty));
            assert(empty + x =~= x);
            assert(segments(p, v, b) =~= segments(p, v, old_b).push(x));
            assert(segments(p, v, b).drop_last() =~= segments(p, v, old_b));
            assert(segment_comps(v, segments(p, v, b)) =~= names);
            assert(b.last() == x.last());
            assert(settled(p, v, cut) == settled(p, v, old_b));
        }
    }
}

/// The prefix of `s` as it is spelled there, then a root, then names.
pub open spec fn spelled(p: Platform, s: Seq<char>, names: Seq<Comp>) -> Seq<char> {
    prefix_text(p, s).push(main_separator(p)) + names_text(p, names)
}

/// An absolute path that shows its root, and whose names and prefix stand for
/// themselves.
pub open spec fn well_anchored(p: Platform, s: Seq<char>) -> bool {
    absolute(p, s) && shows_root(p, s) && (p.unix() || steady(p, s))
}

/// Spelling names behind the anchor of an absolute path and taking the
/// spelling apart gives the same prefix and the same names.
pub proof fn lemma_spelled(p: Platform, s: Seq<char>, names: Seq<Comp>)
    requires
        well_anchored(p, s),
        steady_names(p, names),
    ensures
        prefix_of(p, spelled(p, s, names)) == prefix_of(p, s),
        prefix_text(p, spelled(p, s, names)) == prefix_text(p, s),
        verbatim(p, spelled(p, s, names)) == verbatim(p, s),
        body(p, spelled(p, s, names)) == names_text(p, names),
        body_start(p, spelled(p, s, names)) == prefix_len(p, s) + 1,
        components(p, spelled(p, s, names)) == anchor(p, s) + names,
        absolute(p, spelled(p, s, names)),
        anchor(p, spelled(p, s, names)) == anchor(p, s),
        prefix_text(p, s).len() == prefix_len(p, s),
{
    let t = spelled(p, s, names);
    let raw = prefix_text(p, s);
    let b = names_text(p, names);
    let sep = main_separator(p);
    let tail = seq![sep] + b;
    assert(t =~= raw + tail);
    if p == Platform::Windows {
        lemma_prefix_kept(s, tail);
    }
    assert(raw.len() == prefix_len(p, s));
    assert(t.take(raw.len() as int) =~= raw);
    assert(t[raw.len() as int] == sep);
    assert(body(p, t) =~= b);
    lemma_names_text(p, verbatim(p, s), names);
    assert(anchor(p, t) == anchor(p, s));
}

/// The spelling of the anchor of an absolute path and names behind it.
proof fn lemma_comps_text(p: Platform, s: Seq<char>, names: Seq<Comp>)
    requires
        well_anchored(p, s),
        steady_names(p, names),
    ensures
        comps_text(p, prefix_text(p, s), anchor(p, s) + names) == spelled(p, s, names),
    decreases names.len(),
{
    let raw = prefix_text(p, s);
    let a = anchor(p, s);
    let t = comps_text(p, raw, a + names);
    if names.len() == 0 {
        assert(a + names =~= a);
        assert(names_text(p, names) =~= Seq::empty());
        let first = a.drop_last();
        assert(a.last() == Comp::Root);
        if p == Platform::Windows {
            assert(first.len() == 1 && first.last() is Prefix);
        } else {
            assert(first =~= Seq::empty());
            assert(raw =~= Seq::empty());
        }
        assert(comps_text(p, raw, first) == raw);
        assert(t =~= spelled(p, s, names));
    } else {
        let short = names.drop_last();
        let x = names.last()->Normal_0;
        lemma_short_names(p, names);
        lemma_comps_text(p, s, short);
        assert((a + names).drop_last() =~= a + short);
        assert((a + names).last() == Comp::Normal(x));
        if names.len() == 1 {
            assert(short =~= Seq::empty());
            assert(a + short =~= a);
            assert(names[0] == names.last());
            assert(names_text(p, short) =~= Seq::empty());
            assert(t =~= spelled(p, s, names));
        } else {
            assert((a + short).last() == short[short.len() - 1]);
            assert(short[short.len() - 1] is Normal);
            assert(t =~= spelled(p, s, names));
        }
    }
}

/// A name that stands for itself is one component.
pub proof fn lemma_steady_part(p: Platform, x: Seq<char>)
    requires
        steady_name(p, x),
    ensures
        components(p, x) == seq![Comp::Normal(x)],
        !rooted(p, x),
{
    let names = seq![Comp::Normal(x)];
    assert(!separator(p, x[0]));
    if dotted(p, x) {
        if x.len() > 1 {
            assert(!separator(p, x[1]));
        } else {
            assert(x =~= seq!['.']);
        }
    }
    assert(anchor(p, x) =~= Seq::empty());
    assert(body(p, x) =~= x);
    assert(names_text(p, names) == x);
    lemma_names_text(p, false, names);
    assert(components(p, x) =~= names);
}

/// Joining a name to a spelled path spells it behind the others.
#[verifier::spinoff_prover]
#[verifier::rlimit(40)]
pub proof fn lemma_join_name(p: Platform, s: Seq<char>, names: Seq<Comp>, x: Seq<char>)
    requires
        well_anchored(p, s),
        steady_names(p, names),
        steady_name(p, x),
    ensures
        joined(p, spelled(p, s, names), x) == spelled(p, s, names.push(Comp::Normal(x))),
        steady_names(p, names.push(Comp::Normal(x))),
{
    let t = spelled(p, s, names);
    let more = names.push(Comp::Normal(x));
    assert forall|i: int| 0 <= i < more.len() implies ((#[trigger] more[i]) is Normal
        && steady_name(p, more[i]->Normal_0)) by {
        if i < names.len() {
            assert(more[i] == names[i]);
        }
    }
    lemma_spelled(p, s, names);
    lemma_steady_part(p, x);
    lemma_names_text(p, verbatim(p, s), names);
    assert(more.drop_last() =~= names);
    if verbatim(p, t) {
        let c = components(p, t);
        let part = seq![Comp::Normal(x)];
        assert(part.drop_last() =~= Seq::empty());
        assert(extended(c, part.drop_last()) == c);
        assert(extended(c, part) == c.push(Comp::Normal(x)));
        assert(c.push(Comp::Normal(x)) =~= anchor(p, s) + more);
        lemma_comps_text(p, s, more);
    } else {
        if p == Platform::Windows {
            lemma_prefix_kept(s, Seq::empty());
            assert(prefix_text(p, s).len() >= 2);
        }
        if names.len() == 0 {
            assert(names_text(p, names) =~= Seq::empty());
            assert(t.last() == main_separator(p));
            assert(joined(p, t, x) =~= spelled(p, s, more));
        } else {
            lemma_short_names(p, names);
            lemma_steady_uncut(p, false, names.last()->Normal_0);
            assert(t.last() == names_text(p, names).last());
            assert(joined(p, t, x) =~= spelled(p, s, more));
        }
    }
}

/// Going one level up from a spelled path drops its last name.
pub proof fn lemma_parent_name(p: Platform, s: Seq<char>, names: Seq<Comp>)
    requires
        well_anchored(p, s),
        steady_names(p, names),
    ensures
        has_parent(p, spelled(p, s, names)) == (names.len() > 0),
        names.len() > 0 ==> parent_text(p, spelled(p, s, names)) == spelled(
            p,
            s,
            names.drop_last(),
        ) && steady_names(p, names.drop_last()),
{
    let t = spelled(p, s, names);
    lemma_spelled(p, s, names);
    if names.len() > 0 {
        lemma_short_names(p, names);
        lemma_names_text(p, verbatim(p, s), names);
        let c = components(p, t);
        assert(c.last() == names[names.len() - 1]);
        assert(t.take(body_start(p, t)) =~= prefix_text(p, s).push(main_separator(p)));
    } else {
        assert(components(p, t) =~= anchor(p, s));
        assert(anchor(p, s).last() is Root);
    }
}

/// Joining the prefix of an absolute path and then a root.
pub proof fn lemma_join_anchor(p: Platform, s: Seq<char>)
    requires
        absolute(p, s),
        p == Platform::Windows ==> !(shows_root(p, s)) || well_anchored(p, s),
    ensures
        p == Platform::Windows ==> joined(p, Seq::empty(), prefix_text(p, s)) == prefix_text(p, s),
        shows_root(p, s) ==> joined(p, prefix_text(p, s), seq![main_separator(p)]) == spelled(
            p,
            s,
            Seq::empty(),
        ),
        p.unix() ==> prefix_text(p, s) == Seq::<char>::empty(),
{
    let raw = prefix_text(p, s);
    let sep = seq![main_separator(p)];
    let none = Seq::<Comp>::empty();
    assert(names_text(p, none) =~= Seq::empty());
    if p == Platform::Windows {
        lemma_prefix_kept(s, Seq::empty());
        assert(raw + Seq::<char>::empty() =~= raw);
        assert(prefix_of(p, raw) == prefix_of(p, s));
        assert(prefix_text(p, raw) =~= raw);
        assert(rooted(p, sep) && prefix_of(p, sep) is None);
        if shows_root(p, s) {
            if verbatim(p, raw) {
                assert(!slashed(p, raw));
                lemma_root_part(p);
                lemma_bare_prefix(p, raw);
                let c = components(p, raw);
                let part = seq![Comp::Root];
                assert(part.drop_last() =~= none);
                assert(extended(c, part.drop_last()) == c);
                assert(extended(c, part) == c.push(Comp::Root));
                lemma_comps_text(p, s, none);
                assert(anchor(p, s) + none =~= c.push(Comp::Root));
            } else {
                assert(joined(p, raw, sep) =~= spelled(p, s, none));
            }
        }
    } else {
        assert(raw =~= Seq::empty());
        assert(absolute(p, sep));
        assert(joined(p, raw, sep) =~= spelled(p, s, none));
    }
}

proof fn lemma_root_part(p: Platform)
    ensures
        components(p, seq![main_separator(p)]) == seq![Comp::Root],
{
    let sep = seq![main_separator(p)];
    assert(slashed(p, sep));
    assert(body(p, sep) =~= Seq::empty());
    lemma_names_text(p, false, Seq::empty());
    assert(components(p, sep) =~= seq![Comp::Root]);
}

/// A verbatim prefix by itself is one component.
pub proof fn lemma_bare_prefix(p: Platform, raw: Seq<char>)
    requires
        verbatim(p, raw),
        prefix_len(p, raw) == raw.len(),
    ensures
        components(p, raw) == seq![Comp::Prefix(prefix_of(p, raw)->0)],
{
    assert(body(p, raw) =~= Seq::empty());
    lemma_names_text(p, true, Seq::empty());
    assert(components(p, raw) =~= seq![Comp::Prefix(prefix_of(p, raw)->0)]);
}

/// An absolute path that shows no root is a verbatim prefix and nothing else.
pub proof fn lemma_unrooted(p: Platform, s: Seq<char>)
    requires
        absolute(p, s),
        !shows_root(p, s),
    ensures
        p == Platform::Windows,
        prefix_text(p, s) == s,
        components(p, s) == seq![Comp::Prefix(prefix_of(p, s)->0)],
{
    lemma_verbatim_whole(s);
    lemma_bare_prefix(p, s);
    assert(prefix_text(p, s) =~= s);
}

/// Cutting a text short moves the end of a segment no further than the cut.
proof fn lemma_segment_end_taken(p: Platform, v: bool, s: Seq<char>, from: int, k: int)
    requires
        0 <= from <= k <= s.len(),
    ensures
        segment_end(p, v, s.take(k), from) == if segment_end(p, v, s, from) < k {
            segment_end(p, v, s, from)
        } else {
            k
        },
    decreases k - from,
{
    let t = s.take(k);
    lemma_segment_end_bounds(p, v, s, from);
    if from < k {
        assert(t[from] == s[from]);
        if !cuts(p, v, s[from]) {
            lemma_segment_end_taken(p, v, s, from + 1, k);
        }
    }
}

/// A text cut behind its prefix and root keeps its prefix.
proof fn lemma_prefix_taken(s: Seq<char>, k: int)
    requires
        body_start(Platform::Windows, s) <= k <= s.len(),
        0 <= k,
    ensures
        windows_prefix(s.take(k)) == windows_prefix(s),
{
    let p = Platform::Windows;
    let t = s.take(k);
    assert forall|i: int| 0 <= i < k implies s[i] == #[trigger] t[i] by {}
    if windows_prefix(s) is Some {
        lemma_prefix_kept(s, Seq::empty());
    }
    if s.len() >= 2 && separator(p, s[0]) && separator(p, s[1]) && k >= 2 {
        assert(s[0] == t[0] && s[1] == t[1]);
        if opens_verbatim(s) {
            assert(k >= 4);
            assert(s[2] == t[2] && s[3] == t[3]);
            if opens_share(s) {
                assert(s[4] == t[4] && s[5] == t[5] && s[6] == t[6] && s[7] == t[7]);
                let server_end = segment_end(p, true, s, 8);
                lemma_segment_end_bounds(p, true, s, 8);
                lemma_segment_end_taken(p, true, s, 8, k);
                assert(s.subrange(8, server_end) =~= t.subrange(8, server_end));
                if server_end < s.len() {
                    lemma_segment_end_bounds(p, true, s, server_end + 1);
                    let share_end = segment_end(p, true, s, server_end + 1);
                    lemma_segment_end_taken(p, true, s, server_end + 1, k);
                    assert(s.subrange(server_end + 1, share_end) =~= t.subrange(
                        server_end + 1,
                        share_end,
                    ));
                }
            } else if drive_at(s, 4) && (s.len() == 6 || separator(p, s[6])) {
                assert(s[4] == t[4] && s[5] == t[5]);
                assert(!opens_share(t));
                if k > 6 {
                    assert(s[6] == t[6]);
                }
            } else {
                let end = segment_end(p, true, s, 4);
                lemma_segment_end_bounds(p, true, s, 4);
                lemma_segment_end_taken(p, true, s, 4, k);
                assert(s.subrange(4, end) =~= t.subrange(4, end));
                assert(!opens_share(t)) by {
                    if opens_share(t) {
                        assert(s[4] == t[4] && s[5] == t[5] && s[6] == t[6] && s[7] == t[7]);
                    }
                }
                if drive_at(t, 4) {
                    assert(s[4] == t[4] && s[5] == t[5]);
                    if k > 6 {
                        assert(s[6] == t[6]);
                    } else {
                        assert(end <= 6);
                    }
                }
            }
        } else if opens_device(s) {
            assert(k >= 4);
            assert(s[2] == t[2] && s[3] == t[3]);
            let end = segment_end(p, false, s, 4);
            lemma_segment_end_bounds(p, false, s, 4);
            lemma_segment_end_taken(p, false, s, 4, k);
            assert(s.subrange(4, end) =~= t.subrange(4, end));
        } else {
            assert(!opens_verbatim(t) && !opens_device(t)) by {
                if k >= 4 {
                    assert(s[2] == t[2] && s[3] == t[3]);
                }
            }
            let server_end = segment_end(p, false, s, 2);
            lemma_segment_end_bounds(p, false, s, 2);
            lemma_segment_end_taken(p, false, s, 2, k);
            if server_end < s.len() {
                lemma_segment_end_bounds(p, false, s, server_end + 1);
                let share_end = segment_end(p, false, s, server_end + 1);
                if server_end < k {
                    lemma_segment_end_taken(p, false, s, server_end + 1, k);
                    assert(s.subrange(2, server_end) =~= t.subrange(2, server_end));
                    if share_end <= k {
                        assert(s.subrange(server_end + 1, share_end) =~= t.subrange(
                            server_end + 1,
                            share_end,
                        ));
                    }
                }
            }
        }
    } else if k >= 2 {
        assert(s[0] == t[0] && s[1] == t[1]);
    }
}

/// A text that ends where [`settled`] leaves it means the same: it is a
/// beginning of the text that ends with a component, or is empty, and what
/// was cut off starts with a separator.
proof fn lemma_settled(p: Platform, v: bool, b: Seq<char>)
    ensures
        ({
            let out = settled(p, v, b);
            &&& out.len() <= b.len()
            &&& out == b.take(out.len() as int)
            &&& segment_comps(v, segments(p, v, out)) == segment_comps(v, segments(p, v, b))
            &&& out.len() == 0 ==> segment_comps(v, segments(p, v, out)).len() == 0
            &&& 0 < out.len() < b.len() ==> cuts(p, v, b[out.len() as int])
            &&& out.len() > 0 ==> segments(p, v, out).last().len() > 0 && (v || segments(
                p,
                v,
                out,
            ).last() != seq!['.'])
        }),
    decreases b.len(),
{
    let segs = segments(p, v, b);
    let out = settled(p, v, b);
    lemma_segments_nonempty(p, v, b);
    if b.len() == 0 {
        lemma_names_text(p, false, Seq::empty());
        assert(segs.drop_last() =~= Seq::<Seq<char>>::empty());
        assert(segment_comps(v, segs.drop_last()) =~= Seq::<Comp>::empty());
        assert(out =~= b.take(0));
    } else {
        let short = b.drop_last();
        let before = segments(p, v, short);
        lemma_segments_nonempty(p, v, short);
        if cuts(p, v, b.last()) {
            lemma_settled(p, v, short);
            assert(segs.drop_last() =~= before);
            assert(out =~= b.take(out.len() as int));
        } else if !v && segs.last() == seq!['.'] {
            lemma_settled(p, v, short);
            assert(before.last().push(b.last()) == seq!['.']);
            assert(before.last().len() == 0);
            assert(short.len() > 0 ==> cuts(p, v, short.last()));
            assert(before.drop_last().push(before.last()) =~= before);
            assert(segment_comps(v, before) == segment_comps(v, before.drop_last()));
            assert(segs.drop_last() =~= before.drop_last());
            assert(out =~= b.take(out.len() as int));
        } else {
            assert(out =~= b.take(out.len() as int));
        }
    }
}

/// A text without its last segment.
proof fn lemma_last_segment(p: Platform, v: bool, b: Seq<char>)
    ensures
        ({
            let last = segments(p, v, b).last();
            let rest = b.take(b.len() - last.len());
            &&& last.len() <= b.len()
            &&& segments(p, v, rest) == segments(p, v, b).drop_last().push(Seq::empty())
            &&& rest.len() > 0 ==> cuts(p, v, rest.last())
        }),
    decreases b.len(),
{
    let segs = segments(p, v, b);
    let last = segs.last();
    let none = Seq::<char>::empty();
    lemma_segments_nonempty(p, v, b);
    if b.len() == 0 {
        assert(b.take(0) =~= b);
        assert(segs =~= segs.drop_last().push(none));
    } else {
        let short = b.drop_last();
        let before = segments(p, v, short);
        lemma_segments_nonempty(p, v, short);
        if cuts(p, v, b.last()) {
            assert(last == none);
            assert(b.take(b.len() as int) =~= b);
            assert(segs =~= segs.drop_last().push(none));
        } else {
            lemma_last_segment(p, v, short);
            assert(last == before.last().push(b.last()));
            assert(b.take(b.len() - last.len()) =~= short.take(short.len() - before.last().len()));
            assert(segs.drop_last() =~= before.drop_last());
        }
    }
}

/// A text cut between segments keeps how it begins.
proof fn lemma_head_taken(p: Platform, s: Seq<char>, k: int)
    requires
        body_start(p, s) <= k <= s.len(),
        0 <= k,
        k == body_start(p, s) || k == s.len() || cuts(p, verbatim(p, s), s[k]),
    ensures
        verbatim(p, s.take(k)) == verbatim(p, s),
        anchor(p, s.take(k)) == anchor(p, s),
        body(p, s.take(k)) == body(p, s).take(k - body_start(p, s)),
{
    let t = s.take(k);
    let n = prefix_len(p, s);
    if p == Platform::Windows {
        lemma_prefix_taken(s, k);
        if windows_prefix(s) is Some {
            lemma_prefix_kept(s, Seq::empty());
        }
    }
    assert(0 <= n);
    assert(n < k ==> t[n] == s[n]);
    assert(n + 1 < k ==> t[n + 1] == s[n + 1]);
    assert(slashed(p, t) == slashed(p, s));
    assert(dotted(p, t) == dotted(p, s));
    assert(body(p, t) =~= body(p, s).take(k - body_start(p, s)));
}

/// What follows the anchor loses its last component with its last segment.
proof fn lemma_body_shortened(p: Platform, v: bool, whole: Seq<char>)
    requires
        settled(p, v, whole).len() > 0,
    ensures
        ({
            let b = settled(p, v, whole);
            let last = segments(p, v, b).last();
            let kept = settled(p, v, b.take(b.len() - last.len()));
            let c = segment_comps(v, segments(p, v, whole));
            &&& kept.len() < whole.len()
            &&& kept == whole.take(kept.len() as int)
            &&& 0 < kept.len() ==> cuts(p, v, whole[kept.len() as int])
            &&& c.len() > 0
            &&& segment_comps(v, segments(p, v, kept)) == c.drop_last()
        }),
{
    let b = settled(p, v, whole);
    let segs = segments(p, v, b);
    let last = segs.last();
    let rest = b.take(b.len() - last.len());
    let kept = settled(p, v, rest);
    lemma_settled(p, v, whole);
    lemma_segments_nonempty(p, v, b);
    lemma_last_segment(p, v, b);
    lemma_settled(p, v, rest);
    assert(kept =~= whole.take(kept.len() as int));
    assert(segments(p, v, rest).drop_last() =~= segs.drop_last());
    assert(segment_comps(v, segments(p, v, rest)) == segment_comps(v, segs.drop_last()));
    assert(segment_comps(v, segs).drop_last() =~= segment_comps(v, segs.drop_last()));
    if 0 < kept.len() {
        lemma_settled(p, v, rest.drop_last());
        assert(kept.len() < rest.len());
        assert(rest[kept.len() as int] == whole[kept.len() as int]);
    }
}

/// A path without components behind its anchor has a parent only where it is
/// spelled `.`, and that parent is empty.
proof fn lemma_lone_dot(p: Platform, s: Seq<char>)
    requires
        has_parent(p, s),
        body_comps(p, s).len() == 0,
    ensures
        prefix_len(p, s) == 0,
        s.len() > 0,
        components(p, s) == seq![Comp::Cur],
        components(p, Seq::empty()) == Seq::<Comp>::empty(),
{
    let c = components(p, s);
    let none = Seq::<char>::empty();
    assert(c =~= anchor(p, s));
    assert(c.last() is Cur);
    assert(body(p, none) =~= none);
    lemma_names_text(p, false, Seq::empty());
    assert(components(p, none) =~= Seq::<Comp>::empty());
}

/// The directory one level up is spelled as the path begins, and has all of
/// its components but the last.
pub proof fn law_parent(p: Platform, s: Seq<char>)
    requires
        has_parent(p, s),
    ensures
        parent_text(p, s).len() < s.len(),
        parent_text(p, s) == s.take(parent_text(p, s).len() as int),
        components(p, parent_text(p, s)) == components(p, s).drop_last(),
{
    let v = verbatim(p, s);
    let start = body_start(p, s);
    let whole = body(p, s);
    let b = settled(p, v, whole);
    let t = parent_text(p, s);
    let c = components(p, s);
    if b.len() == 0 {
        lemma_settled(p, v, whole);
        lemma_lone_dot(p, s);
        assert(t =~= Seq::empty());
        assert(c.drop_last() =~= Seq::empty());
    } else {
        lemma_head_bounds(p, s);
        lemma_body_shortened(p, v, whole);
        let kept = settled(p, v, b.take(b.len() - segments(p, v, b).last().len()));
        let k = start + kept.len();
        assert(t =~= s.take(k));
        assert(whole[kept.len() as int] == s[k]);
        lemma_head_taken(p, s, k);
        assert(body(p, t) == kept);
        assert(c.drop_last() =~= anchor(p, s) + body_comps(p, s).drop_last());
    }
}

proof fn lemma_head_bounds(p: Platform, s: Seq<char>)
    ensures
        0 <= prefix_len(p, s) <= body_start(p, s) <= s.len(),
{
    if p == Platform::Windows && windows_prefix(s) is Some {
        lemma_prefix_kept(s, Seq::empty());
    }
}

// ---------------------------------------------------------------------------
// How paths are read
// ---------------------------------------------------------------------------
/// One more segment adds what it stands for.
proof fn lemma_one_more_segment(p: Platform, v: bool, b: Seq<char>, c: char, x: Seq<char>)
    requires
        cuts(p, v, c),
        forall|i: int| 0 <= i < x.len() ==> !cuts(p, v, #[trigger] x[i]),
    ensures
        ({
            let before = segment_comps(v, segments(p, v, b));
            let after = segment_comps(v, segments(p, v, b.push(c) + x));
            &&& x.len() == 0 ==> after == before
            &&& x == seq!['.'] && !v ==> after == before
            &&& x == seq!['.', '.'] ==> after == before.push(Comp::Parent)
            &&& x.len() > 0 && x != seq!['.'] && x != seq!['.', '.'] ==> after == before.push(
                Comp::Normal(x),
            )
        }),
{
    let opened = b.push(c);
    assert(opened.drop_last() =~= b);
    assert(segments(p, v, opened) == segments(p, v, b).push(Seq::empty()));
    lemma_segments_append(p, v, opened, x);
    let segs = segments(p, v, opened + x);
    assert(Seq::<char>::empty() + x =~= x);
    assert(segs =~= segments(p, v, b).push(x));
    assert(segs.drop_last() =~= segments(p, v, b));
    if x == seq!['.', '.'] {
        assert(x.len() == 2);
        assert(seq!['.'].len() == 1);
    }
}

/// A single segment by itself.
proof fn lemma_single_segment(p: Platform, v: bool, x: Seq<char>)
    requires
        forall|i: int| 0 <= i < x.len() ==> !cuts(p, v, #[trigger] x[i]),
    ensures
        ({
            let out = segment_comps(v, segments(p, v, x));
            &&& x.len() == 0 ==> out == Seq::<Comp>::empty()
            &&& x == seq!['.'] && !v ==> out == Seq::<Comp>::empty()
            &&& x == seq!['.', '.'] ==> out == seq![Comp::Parent]
            &&& x.len() > 0 && x != seq!['.'] && x != seq!['.', '.'] ==> out == seq![
                Comp::Normal(x),
            ]
        }),
{
    let none = Seq::<char>::empty();
    lemma_segments_append(p, v, none, x);
    assert(none + x =~= x);
    assert(segments(p, v, none) =~= seq![none]);
    let segs = segments(p, v, x);
    assert(segs =~= seq![x]);
    assert(segs.drop_last() =~= Seq::<Seq<char>>::empty());
    assert(segment_comps(v, Seq::<Seq<char>>::empty()) =~= Seq::<Comp>::empty());
    if x == seq!['.', '.'] {
        assert(x.len() == 2);
        assert(seq!['.'].len() == 1);
    }
}

/// A Unix path is read from left to right: a slash and a name add the name,
/// `..` is kept as a step up, and neither `.` nor a further slash adds
/// anything.
pub proof fn law_unix_components(p: Platform, s: Seq<char>, x: Seq<char>)
    requires
        p != Platform::Windows,
        s.len() > 0,
        !x.contains('/'),
    ensures
        ({
            let c = components(p, s);
            let longer = components(p, s.push('/') + x);
            &&& x.len() == 0 || x == seq!['.'] ==> longer == c
            &&& x == seq!['.', '.'] ==> longer == c.push(Comp::Parent)
            &&& x.len() > 0 && x != seq!['.'] && x != seq!['.', '.'] ==> longer == c.push(
                Comp::Normal(x),
            )
        }),
{
    let t = s.push('/') + x;
    assert forall|i: int| 0 <= i < x.len() implies !cuts(p, false, #[trigger] x[i]) by {
        assert(x.contains(x[i]));
    }
    assert(t[0] == s[0]);
    assert(s.len() > 1 ==> t[1] == s[1]);
    assert(s.len() == 1 ==> t[1] == '/');
    assert(anchor(p, t) =~= anchor(p, s));
    assert(body(p, t) =~= body(p, s).push('/') + x);
    lemma_one_more_segment(p, false, body(p, s), '/', x);
    let c = components(p, s);
    assert(anchor(p, s) + body_comps(p, s).push(Comp::Parent) =~= c.push(Comp::Parent));
    assert(anchor(p, s) + body_comps(p, s).push(Comp::Normal(x)) =~= c.push(Comp::Normal(x)));
}

/// How a Unix path begins: a slash is the root, `.` is the current directory,
/// anything else without a slash is a name or a step up.
#[verifier::spinoff_prover]
#[verifier::rlimit(40)]
pub proof fn law_unix_first_component(p: Platform, x: Seq<char>)
    requires
        p != Platform::Windows,
        !x.contains('/'),
    ensures
        ({
            let name = x.len() > 0 && x != seq!['.'] && x != seq!['.', '.'];
            let alone = components(p, x);
            let rooted = components(p, seq!['/'] + x);
            &&& x.len() == 0 ==> alone == Seq::<Comp>::empty() && rooted == seq![Comp::Root]
            &&& x == seq!['.'] ==> alone == seq![Comp::Cur] && rooted == seq![Comp::Root]
            &&& x == seq!['.', '.'] ==> alone == seq![Comp::Parent] && rooted == seq![
                Comp::Root,
                Comp::Parent,
            ]
            &&& name ==> alone == seq![Comp::Normal(x)] && rooted == seq![
                Comp::Root,
                Comp::Normal(x),
            ]
        }),
        absolute(p, seq!['/'] + x),
        !absolute(p, x),
{
    let t = seq!['/'] + x;
    assert forall|i: int| 0 <= i < x.len() implies !cuts(p, false, #[trigger] x[i]) by {
        assert(x.contains(x[i]));
    }
    assert(t[0] == '/');
    assert(body(p, t) =~= x);
    lemma_single_segment(p, false, x);
    assert(anchor(p, t) =~= seq![Comp::Root]);
    if x.len() > 0 {
        assert(!cuts(p, false, x[0]));
    }
    if x == seq!['.'] {
        assert(x[0] == '.' && x.len() == 1);
        let none = Seq::<char>::empty();
        assert(body(p, x) =~= none);
        lemma_single_segment(p, false, none);
        assert(components(p, x) =~= seq![Comp::Cur]);
    } else {
        if dotted(p, x) {
            if x.len() > 1 {
                assert(!cuts(p, false, x[1]));
            } else {
                assert(x =~= seq!['.']);
            }
        }
        assert(anchor(p, x) =~= Seq::empty());
        assert(body(p, x) =~= x);
        assert(components(p, x) =~= body_comps(p, x));
    }
    assert(components(p, t) == seq![Comp::Root] + segment_comps(false, segments(p, false, x)));
    if x.len() == 0 {
        assert(components(p, t) =~= seq![Comp::Root]);
    } else if x == seq!['.'] {
        assert(components(p, t) =~= seq![Comp::Root]);
    } else if x == seq!['.', '.'] {
        assert(components(p, t) =~= seq![Comp::Root, Comp::Parent]);
    } else {
        assert(components(p, t) =~= seq![Comp::Root, Comp::Normal(x)]);
    }
}

/// What a name leads to lies under where it starts, and not the other way
/// round; it has a parent, the root and the empty path have none.
pub proof fn law_unix_child(p: Platform, s: Seq<char>, x: Seq<char>)
    requires
        p != Platform::Windows,
        s.len() > 0,
        !x.contains('/'),
        x.len() > 0,
        x != seq!['.'],
        x != seq!['.', '.'],
    ensures
        under(p, s.push('/') + x, s),
        !under(p, s, s.push('/') + x),
        has_parent(p, s.push('/') + x),
        !has_parent(p, seq!['/']),
        !has_parent(p, Seq::empty()),
{
    law_unix_components(p, s, x);
    let c = components(p, s);
    assert(c.push(Comp::Normal(x)).subrange(0, c.len() as int) =~= c);
    let none = Seq::<char>::empty();
    law_unix_first_component(p, none);
    assert(seq!['/'] + none =~= seq!['/']);
}

/// A Unix path is joined with a slash between, unless one is there already or
/// there is nothing to join to; an absolute path stands for itself.
pub proof fn law_unix_join(p: Platform, base: Seq<char>, part: Seq<char>)
    requires
        p != Platform::Windows,
    ensures
        part.len() > 0 && part[0] == '/' ==> joined(p, base, part) == part,
        !(part.len() > 0 && part[0] == '/') && (base.len() == 0 || base.last() == '/') ==> joined(
            p,
            base,
            part,
        ) == base + part,
        !(part.len() > 0 && part[0] == '/') && base.len() > 0 && base.last() != '/' ==> joined(
            p,
            base,
            part,
        ) == base.push('/') + part,
{
}

/// A path on a Windows drive is read like any other behind the drive, whose
/// letter counts in upper case; both kinds of slash separate.
pub proof fn law_drive_components(s: Seq<char>, slash: char, x: Seq<char>)
    requires
        s.len() >= 2,
        ascii_letter(s[0]),
        s[1] == ':',
        slash == '/' || slash == '\\',
        !x.contains('/'),
        !x.contains('\\'),
    ensures
        ({
            let p = Platform::Windows;
            let letter = if 'a' <= s[0] <= 'z' {
                (s[0] as int - 32) as char
            } else {
                s[0]
            };
            let drive = Comp::Prefix(
                Drive { kind: PrefixKind::Disk, name: seq![letter], share: Seq::empty() },
            );
            let c = if s.len() == 2 {
                seq![drive, Comp::Root]
            } else {
                components(p, s)
            };
            let longer = components(p, s.push(slash) + x);
            &&& components(p, s)[0] == drive
            &&& s.len() == 2 ==> components(p, s) == seq![drive]
            &&& x.len() == 0 || x == seq!['.'] ==> longer == c
            &&& x == seq!['.', '.'] ==> longer == c.push(Comp::Parent)
            &&& x.len() > 0 && x != seq!['.'] && x != seq!['.', '.'] ==> longer == c.push(
                Comp::Normal(x),
            )
            &&& absolute(p, s) <==> s.len() > 2 && (s[2] == '/' || s[2] == '\\')
        }),
{
    let p = Platform::Windows;
    let t = s.push(slash) + x;
    let letter = if 'a' <= s[0] <= 'z' {
        (s[0] as int - 32) as char
    } else {
        s[0]
    };
    let drive = Comp::Prefix(
        Drive { kind: PrefixKind::Disk, name: seq![letter], share: Seq::empty() },
    );
    assert forall|i: int| 0 <= i < x.len() implies !cuts(p, false, #[trigger] x[i]) by {
        assert(x.contains(x[i]));
    }
    assert(upper_char(s[0]) == letter);
    assert(t[0] == s[0] && t[1] == s[1]);
    assert(prefix_of(p, t) == prefix_of(p, s));
    assert(anchor(p, s)[0] == drive);
    if s.len() == 2 {
        let none = Seq::<char>::empty();
        assert(t[2] == slash);
        assert(body(p, s) =~= none);
        lemma_single_segment(p, false, none);
        assert(components(p, s) =~= seq![drive]);
        assert(body(p, t) =~= x);
        lemma_single_segment(p, false, x);
        assert(anchor(p, t) =~= seq![drive, Comp::Root]);
        let c = seq![drive, Comp::Root];
        assert(c + Seq::<Comp>::empty() =~= c);
        assert(c + seq![Comp::Parent] =~= c.push(Comp::Parent));
        assert(c + seq![Comp::Normal(x)] =~= c.push(Comp::Normal(x)));
    } else {
        assert(t[2] == s[2]);
        assert(s.len() > 3 ==> t[3] == s[3]);
        assert(s.len() == 3 ==> t[3] == slash);
        assert(anchor(p, t) =~= anchor(p, s));
        assert(body(p, t) =~= body(p, s).push(slash) + x);
        lemma_one_more_segment(p, false, body(p, s), slash, x);
        let c = components(p, s);
        assert(anchor(p, s) + body_comps(p, s).push(Comp::Parent) =~= c.push(Comp::Parent));
        assert(anchor(p, s) + body_comps(p, s).push(Comp::Normal(x)) =~= c.push(Comp::Normal(x)));
    }
}

/// How a path on a Windows drive is joined: what names a drive stands for
/// itself, what begins with a slash starts over at the drive, anything else
/// goes behind, with a backslash where no slash is there and the base is more
/// than a drive.
pub proof fn law_drive_join(base: Seq<char>, part: Seq<char>)
    requires
        base.len() >= 2,
        ascii_letter(base[0]),
        base[1] == ':',
    ensures
        ({
            let p = Platform::Windows;
            let out = joined(p, base, part);
            let slashed = part.len() > 0 && (part[0] == '/' || part[0] == '\\');
            let twice = part.len() > 1 && slashed && (part[1] == '/' || part[1] == '\\');
            let elsewhere = part.len() >= 2 && ascii_letter(part[0]) && part[1] == ':';
            let open = base.len() == 2 || base.last() == '/' || base.last() == '\\';
            &&& elsewhere ==> out == part
            &&& slashed && !twice ==> out == base.take(2) + part
            &&& !elsewhere && !slashed && open ==> out == base + part
            &&& !elsewhere && !slashed && !open ==> out == base.push('\\') + part
        }),
{
}

/// The other forms of a Windows prefix, as they are spelled.
pub proof fn law_windows_prefixes(server: Seq<char>, share: Seq<char>, letter: char)
    requires
        server.len() > 0,
        share.len() > 0,
        !server.contains('/') && !server.contains('\\'),
        !share.contains('/') && !share.contains('\\'),
        ascii_letter(letter),
    ensures
        ({
            let p = Platform::Windows;
            let none = Seq::<char>::empty();
            let slashes = seq!['\\', '\\'];
            let lead = seq!['\\', '\\', '?', '\\'];
            let upper = if 'a' <= letter <= 'z' {
                (letter as int - 32) as char
            } else {
                letter
            };
            &&& server != seq!['.'] && server != seq!['?'] ==> prefix_of(
                p,
                slashes + server + seq!['\\'] + share,
            ) == Some(Drive { kind: PrefixKind::Share, name: server, share })
            &&& prefix_of(p, slashes + seq!['.', '\\'] + share) == Some(
                Drive { kind: PrefixKind::Device, name: share, share: none },
            )
            &&& prefix_of(p, lead + seq!['U', 'N', 'C', '\\'] + server + seq!['\\'] + share)
                == Some(Drive { kind: PrefixKind::VerbatimShare, name: server, share })
            &&& prefix_of(p, lead + seq![letter, ':']) == Some(
                Drive { kind: PrefixKind::VerbatimDisk, name: seq![upper], share: none },
            )
        }),
{
    let p = Platform::Windows;
    let slashes = seq!['\\', '\\'];
    let lead = seq!['\\', '\\', '?', '\\'];
    assert forall|i: int| 0 <= i < server.len() implies !separator(p, #[trigger] server[i]) by {
        assert(server.contains(server[i]));
    }
    assert forall|i: int| 0 <= i < share.len() implies !separator(p, #[trigger] share[i]) by {
        assert(share.contains(share[i]));
    }
    if server != seq!['.'] && server != seq!['?'] {
        let s = slashes + server + seq!['\\'] + share;
        assert(s[2] == server[0]);
        if server.len() > 1 {
            assert(s[3] == server[1]);
        } else {
            assert(server =~= seq![server[0]]);
            assert(s[2] != '.' && s[2] != '?');
        }
        assert(!opens_verbatim(s) && !opens_device(s));
        lemma_share_spelled(false, slashes, server, share);
    }
    let device = slashes + seq!['.', '\\'] + share;
    assert(device[2] == '.' && device[3] == '\\');
    assert forall|i: int| 4 <= i < device.len() implies !cuts(p, false, #[trigger] device[i]) by {
        assert(device[i] == share[i - 4]);
    }
    lemma_segment_end_is(p, false, device, 4, device.len() as int);
    assert(device.subrange(4, device.len() as int) =~= share);
    let head = lead + seq!['U', 'N', 'C', '\\'];
    let s = head + server + seq!['\\'] + share;
    assert(s[0] == '\\' && s[1] == '\\' && s[2] == '?' && s[3] == '\\');
    assert(s[4] == 'U' && s[5] == 'N' && s[6] == 'C' && s[7] == '\\');
    lemma_share_spelled(true, head, server, share);
    let disk = lead + seq![letter, ':'];
    assert(disk[2] == '?' && disk[4] == letter && disk[5] == ':' && disk.len() == 6);
}

/// A server and a share are read where they stand.
proof fn lemma_share_spelled(v: bool, head: Seq<char>, server: Seq<char>, share: Seq<char>)
    requires
        forall|i: int|
            0 <= i < server.len() ==> !separator(Platform::Windows, #[trigger] server[i]),
        forall|i: int| 0 <= i < share.len() ==> !separator(Platform::Windows, #[trigger] share[i]),
    ensures
        share_at(v, head + server + seq!['\\'] + share, head.len() as int) == (server, share),
{
    let p = Platform::Windows;
    let s = head + server + seq!['\\'] + share;
    let from = head.len() as int;
    let end = from + server.len();
    assert forall|i: int| from <= i < end implies !cuts(p, v, #[trigger] s[i]) by {
        assert(s[i] == server[i - from]);
    }
    assert(s[end] == '\\');
    lemma_segment_end_is(p, v, s, from, end);
    assert forall|i: int| end + 1 <= i < s.len() implies !cuts(p, v, #[trigger] s[i]) by {
        assert(s[i] == share[i - end - 1]);
    }
    lemma_segment_end_is(p, v, s, end + 1, s.len() as int);
    assert(s.subrange(from, end) =~= server);
    assert(s.subrange(end + 1, s.len() as int) =~= share);
}

} // verus!
