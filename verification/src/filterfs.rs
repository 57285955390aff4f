use vstd::prelude::*;
use vstd::string::{StrSliceExecFns, StringExecFns};
use crate::fhman::{fh_open, fh_release, FhId, FhManager, FhState};
use crate::filter::{dir_shown, file_shown, Filter, FilterModel};
use crate::id::{can_allocate, initial_pool};
use crate::inoman::{
    initial_table, ino_spec, law_ino_keeps_known, law_ino_keeps_wf, lemma_ino_fresh, table_wf, INode, INodeManager,
    InodeTable,
};
use crate::paths::{file_name, join, parent, path_file_name, path_joined, path_normal, path_parent};
use crate::prune::{dir_run, empty_in, name_chars, DirEntryInfo};
use crate::utils::FileKind;

verus! {

/// Why a request fails; each stands for an `errno` value.
#[derive(Clone, Copy, Debug, PartialEq, Eq, Structural)]
pub enum FsError {
    /// `ENOENT`
    NotFound,
    /// `EIO`
    Io,
    /// `EROFS`
    ReadOnly,
    /// `EBADF`
    BadHandle,
    /// `ENOTDIR`
    NotDir,
}

/// Where the attributes of a file come from: an open file, or a path.
pub enum AttrSource<'a, H> {
    File(&'a H),
    Path(String),
}

/// One entry of a directory listing handed to the kernel: its inode number,
/// the offset of the entry after it, its kind and its name.
pub struct DirReply {
    pub ino: u64,
    pub offset: u64,
    pub kind: FileKind,
    pub name: String,
}

impl View for DirReply {
    type V = (u64, u64, FileKind, Seq<char>);

    open spec fn view(&self) -> (u64, u64, FileKind, Seq<char>) {
        (self.ino, self.offset, self.kind, self.name@)
    }
}

/// An entry of a listed directory that is shown: one that could not be read,
/// or its path and its kind (`None` when the kind could not be found out).
pub enum ShownEntry {
    Unreadable,
    Entry { path: String, kind: Option<FileKind> },
}

impl ShownEntry {
    /// Whether the entry lies in a directory: its path has a parent (an
    /// unreadable entry has no path, and counts as lying in one).
    pub fn lies_in_directory(&self) -> (r: bool)
        ensures
            r == has_parent(*self),
    {
        match self {
            ShownEntry::Unreadable => true,
            ShownEntry::Entry { path, kind: _ } => match parent(path.as_str()) {
                Some(_) => true,
                None => false,
            },
        }
    }
}

/// An entry of a listed directory as read: what the file system gave for it,
/// its kind (`None` when it could not be found out), and, for a directory that
/// needs a search, whether the search found it empty.
pub struct EntryRead {
    pub info: DirEntryInfo<String>,
    pub kind: Option<FileKind>,
    pub empty: bool,
}

/// Whether the entry is listed: it is when it is shown, never when it is
/// hidden, and when it needs a search, exactly when the search found it not empty.
pub open spec fn kept(f: FilterModel, depth: nat, e: EntryRead) -> bool {
    match classify(f, e.info, depth) {
        Visibility::Shown => true,
        Visibility::Hidden => false,
        Visibility::Search => !e.empty,
    }
}

/// How a listed entry is handed to the listing.
pub open spec fn as_shown(e: EntryRead) -> ShownEntry {
    match e.info {
        DirEntryInfo::Unreadable => ShownEntry::Unreadable,
        DirEntryInfo::Entry { path, .. } => ShownEntry::Entry { path, kind: e.kind },
    }
}

/// The listed ones among the first `n` entries read, in order.
pub open spec fn selected(f: FilterModel, depth: nat, entries: Seq<EntryRead>, n: nat) -> Seq<ShownEntry>
    decreases n,
{
    if n == 0 || n > entries.len() {
        Seq::empty()
    } else {
        let prev = selected(f, depth, entries, (n - 1) as nat);
        if kept(f, depth, entries[n - 1]) {
            prev.push(as_shown(entries[n - 1]))
        } else {
            prev
        }
    }
}

/// The listed ones among the entries read, in order.
pub open spec fn shown_of(f: FilterModel, depth: nat, entries: Seq<EntryRead>) -> Seq<ShownEntry> {
    selected(f, depth, entries, entries.len())
}

/// Whether an entry is visible in a file system that lists each directory as
/// `fs` says: shown by the rules, and for a directory the rules show, not
/// empty as far as `depth` levels down (with no levels to search, it is kept).
pub open spec fn visible_in(
    f: FilterModel,
    fs: spec_fn(String) -> Option<Seq<DirEntryInfo<String>>>,
    e: DirEntryInfo<String>,
    depth: nat,
) -> bool {
    match classify(f, e, depth) {
        Visibility::Shown => true,
        Visibility::Hidden => false,
        Visibility::Search => !empty_in(f, fs, e->path, depth),
    }
}

/// Whether an entry read is visible in the file system `fs`.
pub open spec fn visible_read(
    f: FilterModel,
    fs: spec_fn(String) -> Option<Seq<DirEntryInfo<String>>>,
    depth: nat,
) -> spec_fn(EntryRead) -> bool {
    |e: EntryRead| visible_in(f, fs, e.info, depth)
}

/// How each entry read is handed to the listing.
pub open spec fn shown_read() -> spec_fn(EntryRead) -> ShownEntry {
    |e: EntryRead| as_shown(e)
}

proof fn lemma_selected_visible(
    f: FilterModel,
    fs: spec_fn(String) -> Option<Seq<DirEntryInfo<String>>>,
    depth: nat,
    entries: Seq<EntryRead>,
    n: nat,
)
    requires
        n <= entries.len(),
        forall|i: int| 0 <= i < entries.len() ==> kept(f, depth, #[trigger] entries[i]) == visible_in(f, fs, entries[i].info, depth),
    ensures
        selected(f, depth, entries, n) == entries.take(n as int).filter(visible_read(f, fs, depth)).map_values(shown_read()),
    decreases n,
{
    let pred = visible_read(f, fs, depth);
    if n > 0 {
        lemma_selected_visible(f, fs, depth, entries, (n - 1) as nat);
        let pre = entries.take(n as int);
        assert(pre.drop_last() =~= entries.take(n - 1));
        assert(pre.last() == entries[n - 1]);
        assert(kept(f, depth, entries[n - 1]) == pred(entries[n - 1]));
        let sub = entries.take(n - 1).filter(pred);
        reveal(Seq::filter);
        assert(pre.filter(pred) == if pred(pre.last()) { pre.drop_last().filter(pred).push(pre.last()) } else { pre.drop_last().filter(pred) });
        if pred(entries[n - 1]) {
            assert(sub.push(entries[n - 1]).map_values(shown_read())
                =~= sub.map_values(shown_read()).push(as_shown(entries[n - 1])));
        }
    } else {
        assert(entries.take(0) =~= Seq::<EntryRead>::empty());
        reveal(Seq::filter);
        assert(entries.take(0).filter(pred) =~= Seq::<EntryRead>::empty());
    }
}

/// A listing shows exactly what the rules admit: when each search answer is
/// whether the directory is empty in the file system `fs` (as every search
/// that reads `fs` answers, `law_search_answers_emptiness`), the entries
/// listed are exactly the visible ones, in the order read.
pub proof fn law_listing_shows_visible(
    f: FilterModel,
    fs: spec_fn(String) -> Option<Seq<DirEntryInfo<String>>>,
    depth: nat,
    entries: Seq<EntryRead>,
)
    requires
        forall|i: int| 0 <= i < entries.len() && classify(f, #[trigger] entries[i].info, depth) == Visibility::Search
            ==> entries[i].empty == empty_in(f, fs, entries[i].info->path, depth),
    ensures
        forall|i: int| 0 <= i < entries.len() ==> kept(f, depth, #[trigger] entries[i]) == visible_in(f, fs, entries[i].info, depth),
        shown_of(f, depth, entries) == entries.filter(visible_read(f, fs, depth)).map_values(shown_read()),
{
    assert forall|i: int| 0 <= i < entries.len() implies kept(f, depth, #[trigger] entries[i]) == visible_in(f, fs, entries[i].info, depth) by {
        if classify(f, entries[i].info, depth) == Visibility::Search {
            assert(entries[i].empty == empty_in(f, fs, entries[i].info->path, depth));
        }
    }
    lemma_selected_visible(f, fs, depth, entries, entries.len());
    assert(entries.take(entries.len() as int) =~= entries);
}

/// How far listing the entries read can move the inode counter at most.
pub open spec fn entries_room(f: FilterModel, depth: nat, entries: Seq<EntryRead>) -> nat {
    listing_room(shown_of(f, depth, entries), shown_of(f, depth, entries).len())
}

/// The `.` and `..` entries of directory `ino` (whose parent is `parent`) that
/// a listing resumed at `offset` hands out: `.` is at position 0 and `..` at
/// position 1 of the listing, each handed out with the offset of the entry
/// after it, when its position is at least `offset`.
pub open spec fn dots_listing(ino: u64, parent: u64, offset: u64) -> Seq<(u64, u64, FileKind, Seq<char>)> {
    let dot = (ino, 1u64, FileKind::Directory, seq!['.']);
    let dotdot = (parent, 2u64, FileKind::Directory, seq!['.', '.']);
    if offset == 0 {
        seq![dot, dotdot]
    } else if offset == 1 {
        seq![dotdot]
    } else {
        Seq::empty()
    }
}

/// The `.` entry of a listing carries the directory's own number and the `..`
/// entry the number of its parent, each as a directory: a listing from the
/// start hands out `.` then `..`, one resumed at offset 1 only `..`, and one
/// resumed further on neither.
pub proof fn law_dots_carry_self_and_parent(ino: u64, parent: u64, offset: u64)
    ensures
        dots_listing(ino, parent, offset).len() == if offset <= 1 { 2 - offset } else { 0 },
        offset == 0 ==> dots_listing(ino, parent, offset)[0] == (ino, 1u64, FileKind::Directory, seq!['.']),
        offset <= 1 ==> dots_listing(ino, parent, offset)[1 - offset] == (parent, 2u64, FileKind::Directory, seq!['.', '.']),
        forall|k: int| 0 <= k < dots_listing(ino, parent, offset).len() ==>
            (#[trigger] dots_listing(ino, parent, offset)[k]).1 == offset + k + 1,
{
}

/// What listing some of the shown entries gives: the inode table afterwards,
/// the entries handed out, and the failure that ended the listing, if any.
pub struct Listing {
    pub inodes: InodeTable,
    pub replies: Seq<(u64, u64, FileKind, Seq<char>)>,
    pub error: Option<FsError>,
}

/// The first `n` shown entries listed from `offset` on. Shown entry `j` stands
/// at position `j + 2` of the listing (after `.` and `..`); it is handed out,
/// with offset `j + 3`, when that position is at least `offset`. Handing it out
/// gives its path an inode number; an entry that could not be read, or whose
/// kind or name cannot be had, ends the listing with `Io`.
pub open spec fn entries_listing(t: InodeTable, offset: u64, shown: Seq<ShownEntry>, n: nat) -> Listing
    decreases n,
{
    if n == 0 || n > shown.len() {
        Listing { inodes: t, replies: Seq::empty(), error: None }
    } else {
        let prev = entries_listing(t, offset, shown, (n - 1) as nat);
        let j = n - 1;
        if prev.error is Some || j + 2 < offset {
            prev
        } else {
            match shown[j] {
                ShownEntry::Unreadable => Listing { inodes: prev.inodes, replies: prev.replies, error: Some(FsError::Io) },
                ShownEntry::Entry { path, kind } => {
                    let (t1, ino) = ino_spec(prev.inodes, path@);
                    match (kind, path_file_name(path@)) {
                        (Some(k), Some(name)) => Listing {
                            inodes: t1,
                            replies: prev.replies.push((ino, (j + 3) as u64, k, name)),
                            error: None,
                        },
                        _ => Listing { inodes: t1, replies: prev.replies, error: Some(FsError::Io) },
                    }
                },
            }
        }
    }
}

/// How far listing the first `n` shown entries can move the inode counter at
/// most: one more than the length of each path (and one for an unreadable entry).
pub open spec fn listing_room(shown: Seq<ShownEntry>, n: nat) -> nat
    decreases n,
{
    if n == 0 || n > shown.len() {
        0
    } else {
        listing_room(shown, (n - 1) as nat) + match shown[n - 1] {
            ShownEntry::Unreadable => 1nat,
            ShownEntry::Entry { path, .. } => path@.len() + 1,
        }
    }
}

proof fn lemma_listing_room_grows(shown: Seq<ShownEntry>, i: nat, j: nat)
    requires
        i <= j <= shown.len(),
    ensures
        listing_room(shown, i) + (j - i) <= listing_room(shown, j),
    decreases j,
{
    if i < j {
        lemma_listing_room_grows(shown, i, (j - 1) as nat);
    }
}

/// Whether a directory entry is shown, hidden, or depends on whether the
/// directory is empty.
#[derive(Clone, Copy, Debug, PartialEq, Eq, Structural)]
pub enum Visibility {
    Shown,
    Hidden,
    Search,
}

/// How an entry is judged: an entry that cannot be read is shown; a file is
/// shown by the file rules; a directory that the directory rules hide is
/// hidden, and one they show is shown only when not empty (which a search
/// `depth` levels down decides; with no levels to search, it counts as not empty).
pub open spec fn classify<P>(f: FilterModel, e: DirEntryInfo<P>, depth: nat) -> Visibility {
    match e {
        DirEntryInfo::Unreadable => Visibility::Shown,
        DirEntryInfo::Entry { path, name, is_dir } => {
            if !is_dir {
                if file_shown(f, name_chars(name)) { Visibility::Shown } else { Visibility::Hidden }
            } else if !dir_shown(f, name_chars(name)) {
                Visibility::Hidden
            } else if depth == 0 {
                Visibility::Shown
            } else {
                Visibility::Search
            }
        },
    }
}

/// Whether an entry is listed, given the listings its search reads (if it needs one).
pub open spec fn entry_listed<P>(
    f: FilterModel,
    e: DirEntryInfo<P>,
    depth: nat,
    log: Seq<Option<Seq<DirEntryInfo<P>>>>,
) -> Option<bool> {
    match classify(f, e, depth) {
        Visibility::Shown => Some(true),
        Visibility::Hidden => Some(false),
        Visibility::Search => match dir_run(f, e->path, depth, log).result {
            Some(empty) => Some(!empty),
            None => None,
        },
    }
}


/// Without pruning (depth zero), every directory the rules show is listed, and
/// no directory is read to decide it.
pub proof fn law_no_pruning_at_depth_zero<P>(f: FilterModel, e: DirEntryInfo<P>, log: Seq<Option<Seq<DirEntryInfo<P>>>>)
    requires
        e matches DirEntryInfo::Entry { name, is_dir, .. } && is_dir && dir_shown(f, name_chars(name)),
    ensures
        classify(f, e, 0) == Visibility::Shown,
        entry_listed(f, e, 0, log) == Some(true),
{
}

/// The rules decide alone where no search is needed: a file is listed exactly
/// when the file rules show it, and a directory the directory rules hide is
/// never listed.
pub proof fn law_rules_decide_without_search<P>(f: FilterModel, e: DirEntryInfo<P>, depth: nat, log: Seq<Option<Seq<DirEntryInfo<P>>>>)
    requires
        e matches DirEntryInfo::Entry { name, is_dir, .. } && (!is_dir || !dir_shown(f, name_chars(name))),
    ensures
        entry_listed(f, e, depth, log) == Some(
            e matches DirEntryInfo::Entry { name, is_dir, .. } && !is_dir && file_shown(f, name_chars(name)),
        ),
{
}

/// The entry lies in a directory: its path has a parent, shorter than itself.
pub open spec fn has_parent(e: ShownEntry) -> bool {
    match e {
        ShownEntry::Unreadable => true,
        ShownEntry::Entry { path, .. } => match path_parent(path@) {
            Some(p) => p.len() < path@.len(),
            None => false,
        },
    }
}

/// `reply` is how shown entry `e` is handed out at index `j` with the inode
/// table `t`: with its path's number in `t`, offset `j + 3`, its kind and its name.
pub open spec fn handed_out_as(e: ShownEntry, t: InodeTable, reply: (u64, u64, FileKind, Seq<char>), j: int) -> bool {
    match e {
        ShownEntry::Unreadable => false,
        ShownEntry::Entry { path, kind } => {
            &&& kind == Some(reply.2)
            &&& path_file_name(path@) == Some(reply.3)
            &&& reply.1 == j + 3
            &&& t.inos.contains_key(path_normal(path@))
            &&& t.inos[path_normal(path@)] == reply.0
        },
    }
}

proof fn lemma_full_listing(t: InodeTable, shown: Seq<ShownEntry>, n: nat)
    requires
        table_wf(t),
        n <= shown.len(),
        t.next + listing_room(shown, shown.len()) < u64::MAX,
        forall|j: int| 0 <= j < shown.len() ==> has_parent(#[trigger] shown[j]),
        entries_listing(t, 0, shown, n).error is None,
    ensures
        table_wf(entries_listing(t, 0, shown, n).inodes),
        entries_listing(t, 0, shown, n).inodes.next <= t.next + listing_room(shown, n),
        entries_listing(t, 0, shown, n).replies.len() == n,
        forall|i: u64| #[trigger] t.nodes.contains_key(i) ==>
            entries_listing(t, 0, shown, n).inodes.nodes.contains_key(i)
                && entries_listing(t, 0, shown, n).inodes.nodes[i] == t.nodes[i],
        forall|j: int| 0 <= j < n ==> handed_out_as(
            shown[j],
            entries_listing(t, 0, shown, n).inodes,
            #[trigger] entries_listing(t, 0, shown, n).replies[j],
            j,
        ),
    decreases n,
{
    if n > 0 {
        let prev = entries_listing(t, 0, shown, (n - 1) as nat);
        let j = n - 1;
        assert(prev.error is None);
        lemma_full_listing(t, shown, (n - 1) as nat);
        lemma_listing_room_grows(shown, n, shown.len());
        lemma_listing_room_grows(shown, 0, shown.len());
        assert(has_parent(shown[j as int]));
        if let ShownEntry::Entry { path, kind } = shown[j as int] {
            let pt = prev.inodes;
            law_ino_keeps_wf(pt, path@);
            law_ino_keeps_known(pt, path@);
            lemma_ino_fresh(pt, path@);
            let (t1, ino) = ino_spec(pt, path@);
            assert(t1.inos.contains_key(path_normal(path@)) && t1.inos[path_normal(path@)] == ino);
            let l = entries_listing(t, 0, shown, n);
            assert(kind is Some && path_file_name(path@) is Some);
            let reply = (ino, (j + 3) as u64, kind->0, path_file_name(path@)->0);
            assert(l.inodes == t1);
            assert(l.replies == prev.replies.push(reply));
            assert(handed_out_as(shown[j as int], t1, reply, j as int));
            assert forall|k: int| 0 <= k < n implies handed_out_as(shown[k], l.inodes, #[trigger] l.replies[k], k) by {
                if k < j {
                    assert(handed_out_as(shown[k], pt, prev.replies[k], k));
                    assert(l.replies[k] == prev.replies[k]);
                    if let ShownEntry::Entry { path: pk, .. } = shown[k] {
                        assert(pt.inos.contains_key(path_normal(pk@)));
                    }
                }
            }
        }
    }
}

proof fn lemma_resumed_listing(t: InodeTable, shown: Seq<ShownEntry>, full: Seq<(u64, u64, FileKind, Seq<char>)>, o: u64, n: nat)
    requires
        n <= shown.len(),
        full.len() == shown.len(),
        forall|j: int| 0 <= j < shown.len() ==> handed_out_as(shown[j], t, #[trigger] full[j], j),
    ensures
        entries_listing(t, o, shown, n).inodes == t,
        entries_listing(t, o, shown, n).error is None,
        entries_listing(t, o, shown, n).replies =~= full.subrange(
            if n <= (if o < 2 { 0 } else { o - 2 }) { n as int } else { if o < 2 { 0 } else { o - 2 } },
            n as int,
        ),
    decreases n,
{
    if n > 0 {
        lemma_resumed_listing(t, shown, full, o, (n - 1) as nat);
        let j = n - 1;
        assert(handed_out_as(shown[j as int], t, full[j as int], j as int));
    }
}

/// A listing resumed at the offset handed out with an entry goes on right after
/// that entry: when a listing of directory `ino` from the start (`.`, `..`, then
/// the shown entries, each of which lies in a directory) ends without failure,
/// listing it again at any offset `o` up to its end hands out exactly its
/// entries from position `o` on, with the same numbers, and numbers nothing new.
#[verifier::rlimit(40)]
pub proof fn law_listing_resumes(t: InodeTable, ino: u64, shown: Seq<ShownEntry>, o: u64)
    requires
        table_wf(t),
        t.nodes.contains_key(ino),
        t.next + listing_room(shown, shown.len()) < u64::MAX,
        forall|j: int| 0 <= j < shown.len() ==> has_parent(#[trigger] shown[j]),
        entries_listing(t, 0, shown, shown.len()).error is None,
        o <= shown.len() + 2,
    ensures
        ({
            let first = entries_listing(t, 0, shown, shown.len());
            let again = entries_listing(first.inodes, o, shown, shown.len());
            &&& first.inodes.nodes.contains_key(ino)
            &&& again.error is None
            &&& again.inodes == first.inodes
            &&& dots_listing(ino, first.inodes.nodes[ino].1, o) + again.replies
                == (dots_listing(ino, t.nodes[ino].1, 0) + first.replies).skip(o as int)
        }),
{
    let first = entries_listing(t, 0, shown, shown.len());
    lemma_full_listing(t, shown, shown.len());
    lemma_resumed_listing(first.inodes, shown, first.replies, o, shown.len());
    let again = entries_listing(first.inodes, o, shown, shown.len());
    let d0 = dots_listing(ino, t.nodes[ino].1, 0);
    assert(first.inodes.nodes[ino] == t.nodes[ino]);
    if o == 0 {
        assert(dots_listing(ino, first.inodes.nodes[ino].1, o) + again.replies =~= (d0 + first.replies).skip(o as int));
    } else if o == 1 {
        assert(dots_listing(ino, first.inodes.nodes[ino].1, o) + again.replies =~= (d0 + first.replies).skip(o as int));
    } else {
        assert(dots_listing(ino, first.inodes.nodes[ino].1, o) + again.replies =~= (d0 + first.replies).skip(o as int));
    }
}

/// The number that the path of entry `e` already has in the table `t`, if any.
pub open spec fn known_number(t: InodeTable, e: ShownEntry) -> Option<u64> {
    match e {
        ShownEntry::Entry { path, .. } => if t.inos.contains_key(path_normal(path@)) {
            Some(t.inos[path_normal(path@)])
        } else {
            None
        },
        ShownEntry::Unreadable => None,
    }
}

/// A listing keeps the numbers already given out: every path known before it
/// keeps its number, and an entry whose path (or a path with the same
/// components, such as one looked up before) already has a number is handed out
/// with that number. Shown entry `j` is the one handed out with offset `j + 3`.
pub proof fn law_listing_keeps_numbers(t: InodeTable, offset: u64, shown: Seq<ShownEntry>, n: nat)
    requires
        table_wf(t),
        t.next + listing_room(shown, shown.len()) < u64::MAX,
        n <= shown.len(),
    ensures
        table_wf(entries_listing(t, offset, shown, n).inodes),
        entries_listing(t, offset, shown, n).inodes.next <= t.next + listing_room(shown, n),
        forall|q: Seq<char>| #[trigger] t.inos.contains_key(q) ==>
            entries_listing(t, offset, shown, n).inodes.inos.contains_key(q)
                && entries_listing(t, offset, shown, n).inodes.inos[q] == t.inos[q],
        forall|k: int| 0 <= k < entries_listing(t, offset, shown, n).replies.len() ==>
            3 <= #[trigger] entries_listing(t, offset, shown, n).replies[k].1 < n + 3,
        forall|k: int, j: int|
            0 <= k < entries_listing(t, offset, shown, n).replies.len() && 0 <= j < n
                && #[trigger] entries_listing(t, offset, shown, n).replies[k].1 == j + 3
                && #[trigger] known_number(t, shown[j]) is Some
                ==> entries_listing(t, offset, shown, n).replies[k].0 == known_number(t, shown[j])->0,
    decreases n,
{
    if n > 0 {
        law_listing_keeps_numbers(t, offset, shown, (n - 1) as nat);
        lemma_listing_room_grows(shown, n, shown.len());
        lemma_listing_room_grows(shown, 0, shown.len());
        let prev = entries_listing(t, offset, shown, (n - 1) as nat);
        let l = entries_listing(t, offset, shown, n);
        let j = n - 1;
        if prev.error is None && j + 2 >= offset {
            if let ShownEntry::Entry { path, kind } = shown[j as int] {
                let pt = prev.inodes;
                law_ino_keeps_wf(pt, path@);
                law_ino_keeps_known(pt, path@);
                lemma_ino_fresh(pt, path@);
                let (t1, ino) = ino_spec(pt, path@);
                assert(l.inodes == t1);
                if known_number(t, shown[j as int]) is Some {
                    assert(t.inos.contains_key(path_normal(path@)));
                    assert(ino == known_number(t, shown[j as int])->0);
                }
                if kind is Some && path_file_name(path@) is Some {
                    let reply = (ino, (j + 3) as u64, kind->0, path_file_name(path@)->0);
                    assert(l.replies == prev.replies.push(reply));
                    assert forall|k: int, i: int|
                        0 <= k < l.replies.len() && 0 <= i < n && #[trigger] l.replies[k].1 == i + 3
                            && #[trigger] known_number(t, shown[i]) is Some
                        implies l.replies[k].0 == known_number(t, shown[i])->0 by {
                        if k < prev.replies.len() {
                            assert(l.replies[k] == prev.replies[k]);
                        }
                    }
                }
            }
        }
    }
}

/// The whole state of the mirror: its rules, how far down it prunes empty
/// directories, its inode numbers and its open files.
pub struct FsModel<H> {
    pub filter: FilterModel,
    pub prune_depth: nat,
    pub inodes: InodeTable,
    pub files: FhState<H>,
}

/// The length of the path of inode `ino`, if it is known.
pub open spec fn path_len<H>(m: FsModel<H>, ino: u64) -> nat {
    if m.inodes.nodes.contains_key(ino) {
        m.inodes.nodes[ino].0.len()
    } else {
        0
    }
}

/// A read-only mirror of a directory tree that shows only what its rules let through.
#[verifier::reject_recursive_types(H)]
pub struct FilterFS<H> {
    filter: Filter,
    prune_depth: usize,
    inoman: INodeManager,
    fhman: FhManager<H>,
}

impl<H> View for FilterFS<H> {
    type V = FsModel<H>;

    closed spec fn view(&self) -> FsModel<H> {
        FsModel {
            filter: self.filter@,
            prune_depth: self.prune_depth as nat,
            inodes: self.inoman@,
            files: self.fhman@,
        }
    }
}

impl<H> FilterFS<H> {
    #[verifier::type_invariant]
    closed spec fn inodes_wf(self) -> bool {
        table_wf(self.inoman@)
    }

    /// A mirror of the tree at `root`, pruning empty directories `prune_depth`
    /// levels down, with the rules of `filter`.
    pub fn new(root: &str, prune_depth: usize, filter: Filter) -> (r: Self)
        ensures
            r@.filter == filter@,
            r@.prune_depth == prune_depth,
            r@.inodes == initial_table(root@),
            r@.files.pool == initial_pool(),
            r@.files.handles == Map::<FhId, H>::empty(),
            table_wf(r@.inodes),
    {
        let inoman = INodeManager::new(root);
        FilterFS { filter, prune_depth, inoman, fhman: FhManager::new() }
    }

    /// The rules.
    pub fn filter(&self) -> (r: &Filter)
        ensures
            r@ == self@.filter,
    {
        &self.filter
    }

    /// How far down empty directories are pruned.
    pub fn prune_depth(&self) -> (r: usize)
        ensures
            r == self@.prune_depth,
    {
        self.prune_depth
    }

    /// Where the attributes of inode `ino` come from: the open file `fh` when
    /// one is given (failing with `Io` when it is not open), else the path of
    /// `ino` (failing with `Io` when the inode is unknown).
    pub fn getattr(&self, ino: u64, fh: Option<FhId>) -> (r: Result<AttrSource<'_, H>, FsError>)
        ensures
            match fh {
                Some(id) => match r {
                    Ok(AttrSource::File(h)) => self@.files.handles.contains_key(id) && *h == self@.files.handles[id],
                    Ok(AttrSource::Path(_)) => false,
                    Err(e) => e == FsError::Io && !self@.files.handles.contains_key(id),
                },
                None => match r {
                    Ok(AttrSource::Path(p)) => self@.inodes.nodes.contains_key(ino) && p@ == self@.inodes.nodes[ino].0,
                    Ok(AttrSource::File(_)) => false,
                    Err(e) => e == FsError::Io && !self@.inodes.nodes.contains_key(ino),
                },
            },
    {
        match fh {
            Some(id) => match self.fhman.handle(id) {
                Some(h) => Ok(AttrSource::File(&h.handle)),
                None => Err(FsError::Io),
            },
            None => match self.inoman.path(ino) {
                Some(p) => Ok(AttrSource::Path(p)),
                None => Err(FsError::Io),
            },
        }
    }

    /// Whether looking up `name` in directory `parent` cannot overflow the
    /// inode counter.
    pub fn has_room_for(&self, parent: u64, name: &str) -> (r: bool)
        ensures
            r == (self@.inodes.next + path_len(self@, parent) + name@.len() + 1 < u64::MAX),
    {
        let plen: usize = match self.inoman.path(parent) {
            Some(p) => p.as_str().unicode_len(),
            None => 0,
        };
        let nlen = name.unicode_len();
        let next = self.inoman.next_ino();
        next < u64::MAX && (plen as u64) < u64::MAX - next && (nlen as u64) < u64::MAX - next - (plen as u64)
            && 1 < u64::MAX - next - (plen as u64) - (nlen as u64)
    }

    /// The path that `name` stands for in directory `parent`: the parent's
    /// path joined with `name`. Fails with `NotFound` when the parent is unknown.
    pub fn lookup_path(&self, parent: u64, name: &str) -> (r: Result<String, FsError>)
        ensures
            match r {
                Ok(p) => self@.inodes.nodes.contains_key(parent) && p@ == path_joined(self@.inodes.nodes[parent].0, name@)
                    && p@.len() <= self@.inodes.nodes[parent].0.len() + name@.len() + 1,
                Err(e) => e == FsError::NotFound && !self@.inodes.nodes.contains_key(parent),
            },
    {
        match self.inoman.path(parent) {
            Some(base) => Ok(join(base.as_str(), name)),
            None => Err(FsError::NotFound),
        }
    }

    /// Looks up `name` in directory `parent`, which is a directory when
    /// `is_dir` holds: its path is the parent's path joined with `name`. Fails
    /// with `NotFound` when the parent is unknown or the rules hide the name (the
    /// directory rules for a directory, the file rules otherwise); otherwise the
    /// path gets its inode number (which is returned with the path).
    pub fn lookup(&mut self, parent: u64, name: &str, is_dir: bool) -> (r: Result<(u64, String), FsError>)
        requires
            old(self)@.inodes.next + path_len(old(self)@, parent) + name@.len() + 1 < u64::MAX,
        ensures
            table_wf(final(self)@.inodes),
            final(self)@.filter == old(self)@.filter,
            final(self)@.prune_depth == old(self)@.prune_depth,
            final(self)@.files == old(self)@.files,
            !old(self)@.inodes.nodes.contains_key(parent) ==> r == Err::<(u64, String), FsError>(FsError::NotFound)
                && final(self)@ == old(self)@,
            old(self)@.inodes.nodes.contains_key(parent) ==> {
                let p = path_joined(old(self)@.inodes.nodes[parent].0, name@);
                let shown = if is_dir {
                    dir_shown(old(self)@.filter, path_file_name(p))
                } else {
                    file_shown(old(self)@.filter, path_file_name(p))
                };
                if shown {
                    (r matches Ok((ino, path)) && path@ == p
                        && (final(self)@.inodes, ino) == ino_spec(old(self)@.inodes, p))
                } else {
                    r == Err::<(u64, String), FsError>(FsError::NotFound) && final(self)@ == old(self)@
                }
            },
    {
        proof { use_type_invariant(&*self); }
        let path = match self.lookup_path(parent, name) {
            Ok(p) => p,
            Err(e) => return Err(e),
        };
        let shown = if is_dir {
            self.filter.include_dir(path.as_str())
        } else {
            self.filter.include_file(path.as_str())
        };
        if !shown {
            return Err(FsError::NotFound);
        }
        let mut inoman = INodeManager::new("");
        std::mem::swap(&mut self.inoman, &mut inoman);
        let ino = inoman.ino(path.as_str());
        self.inoman = inoman;
        Ok((ino, path))
    }

    /// The file to open for inode `ino`: fails with `ReadOnly` unless it is
    /// opened for reading only, and with `NotFound` when the inode is unknown.
    pub fn open_inode(&self, ino: u64, read_only: bool) -> (r: Result<INode, FsError>)
        ensures
            !read_only ==> r == Err::<INode, FsError>(FsError::ReadOnly),
            read_only ==> match r {
                Ok(n) => self@.inodes.nodes.contains_key(ino) && n@ == self@.inodes.nodes[ino],
                Err(e) => e == FsError::NotFound && !self@.inodes.nodes.contains_key(ino),
            },
    {
        if !read_only {
            return Err(FsError::ReadOnly);
        }
        match self.inoman.inode(ino) {
            Some(n) => Ok(n),
            None => Err(FsError::NotFound),
        }
    }

    /// Whether a file handle number can be taken.
    pub fn can_open(&self) -> (r: bool)
        ensures
            r == can_allocate(self@.files.pool),
    {
        self.fhman.can_open()
    }

    /// Takes a file handle number for the file opened (`None` when it could
    /// not be opened, which fails with `Io`; the number is taken all the same).
    pub fn open_handle(&mut self, file: Option<H>) -> (r: Result<FhId, FsError>)
        requires
            can_allocate(old(self)@.files.pool),
        ensures
            final(self)@.filter == old(self)@.filter,
            final(self)@.prune_depth == old(self)@.prune_depth,
            final(self)@.inodes == old(self)@.inodes,
            final(self)@.files == fh_open(old(self)@.files, file).0,
            match fh_open(old(self)@.files, file).1 {
                Some(id) => r == Ok::<FhId, FsError>(id),
                None => r == Err::<FhId, FsError>(FsError::Io),
            },
    {
        proof { use_type_invariant(&*self); }
        let mut fhman = FhManager::new();
        std::mem::swap(&mut self.fhman, &mut fhman);
        let r = fhman.open(file);
        self.fhman = fhman;
        match r {
            Some(id) => Ok(id),
            None => Err(FsError::Io),
        }
    }

    /// Closes the file with handle `fh`, handing its number back.
    pub fn release(&mut self, fh: FhId)
        ensures
            final(self)@.filter == old(self)@.filter,
            final(self)@.prune_depth == old(self)@.prune_depth,
            final(self)@.inodes == old(self)@.inodes,
            final(self)@.files == fh_release(old(self)@.files, fh),
    {
        proof { use_type_invariant(&*self); }
        let mut fhman = FhManager::new();
        std::mem::swap(&mut self.fhman, &mut fhman);
        fhman.release(fh);
        self.fhman = fhman;
    }

    /// The open file with handle `fh`, to read from; fails with `BadHandle`
    /// when there is none.
    pub fn read_handle(&self, fh: FhId) -> (r: Result<&H, FsError>)
        ensures
            match r {
                Ok(h) => self@.files.handles.contains_key(fh) && *h == self@.files.handles[fh],
                Err(e) => e == FsError::BadHandle && !self@.files.handles.contains_key(fh),
            },
    {
        match self.fhman.handle(fh) {
            Some(h) => Ok(&h.handle),
            None => Err(FsError::BadHandle),
        }
    }

    /// The path of directory `ino`, to list; fails with `NotFound` when the
    /// inode is unknown.
    pub fn readdir_path(&self, ino: u64) -> (r: Result<String, FsError>)
        ensures
            match r {
                Ok(p) => self@.inodes.nodes.contains_key(ino) && p@ == self@.inodes.nodes[ino].0,
                Err(e) => e == FsError::NotFound && !self@.inodes.nodes.contains_key(ino),
            },
    {
        match self.inoman.path(ino) {
            Some(p) => Ok(p),
            None => Err(FsError::NotFound),
        }
    }

    /// How an entry of a listed directory is judged, with the rules and the
    /// prune depth of the mirror.
    pub fn entry_visibility<P>(&self, entry: &DirEntryInfo<P>) -> (r: Visibility)
        ensures
            r == classify(self@.filter, *entry, self@.prune_depth),
    {
        match entry {
            DirEntryInfo::Unreadable => Visibility::Shown,
            DirEntryInfo::Entry { path: _, name, is_dir } => {
                let n = match name {
                    Some(t) => Some(t.as_str()),
                    None => None,
                };
                if !*is_dir {
                    if self.filter.include_file_name(n) {
                        Visibility::Shown
                    } else {
                        Visibility::Hidden
                    }
                } else if !self.filter.include_dir_name(n) {
                    Visibility::Hidden
                } else if self.prune_depth == 0 {
                    Visibility::Shown
                } else {
                    Visibility::Search
                }
            },
        }
    }

    /// The entries to list among the entries read, in order: those shown, and
    /// of those needing a search, those found not empty.
    pub fn select_shown(&self, entries: &Vec<EntryRead>) -> (r: Vec<ShownEntry>)
        ensures
            r@ == shown_of(self@.filter, self@.prune_depth, entries@),
    {
        let mut out: Vec<ShownEntry> = Vec::new();
        let mut i: usize = 0;
        while i < entries.len()
            invariant
                i <= entries@.len(),
                out@ == selected(self@.filter, self@.prune_depth, entries@, i as nat),
            decreases entries@.len() - i,
        {
            let e = &entries[i];
            let keep = match self.entry_visibility(&e.info) {
                Visibility::Shown => true,
                Visibility::Hidden => false,
                Visibility::Search => !e.empty,
            };
            if keep {
                let s = match &e.info {
                    DirEntryInfo::Unreadable => ShownEntry::Unreadable,
                    DirEntryInfo::Entry { path, name: _, is_dir: _ } => ShownEntry::Entry { path: path.clone(), kind: e.kind },
                };
                out.push(s);
            }
            i = i + 1;
        }
        out
    }

    /// Whether listing the entries read cannot overflow the inode counter.
    pub fn has_room_for_listing(&self, entries: &Vec<EntryRead>) -> (r: bool)
        ensures
            r == (self@.inodes.next + entries_room(self@.filter, self@.prune_depth, entries@) < u64::MAX),
    {
        let shown = self.select_shown(entries);
        assert(entries_room(self@.filter, self@.prune_depth, entries@) == listing_room(shown@, shown@.len()));
        let mut total: u64 = self.inoman.next_ino();
        if total == u64::MAX {
            return false;
        }
        let mut i: usize = 0;
        while i < shown.len()
            invariant
                i <= shown@.len(),
                total == self@.inodes.next + listing_room(shown@, i as nat),
                total < u64::MAX,
                entries_room(self@.filter, self@.prune_depth, entries@) == listing_room(shown@, shown@.len()),
            decreases shown@.len() - i,
        {
            let len: usize = match &shown[i] {
                ShownEntry::Unreadable => 0,
                ShownEntry::Entry { path, kind: _ } => path.as_str().unicode_len(),
            };
            proof { lemma_listing_room_grows(shown@, (i + 1) as nat, shown@.len()); }
            if (len as u64) >= u64::MAX - total - 1 {
                return false;
            }
            total = total + (len as u64) + 1;
            i = i + 1;
        }
        true
    }

    /// Lists directory `ino` from `offset` on, given the entries read from it
    /// in order (`is_dir` tells whether its path is a directory): the listing is
    /// `.`, `..`, then the entries selected (`select_shown`), and the entry at
    /// position `k` is handed out with offset `k + 1` when `k` is at least
    /// `offset`. Each entry handed out gets an inode number. Returns the entries
    /// handed out and the failure that ended the listing early, if any. Fails
    /// with `NotFound` when the inode is unknown and with `NotDir` when its path
    /// is not a directory, changing nothing.
    #[verifier::rlimit(40)]
    pub fn readdir_listing(&mut self, ino: u64, is_dir: bool, offset: u64, entries: &Vec<EntryRead>)
        -> (r: Result<(Vec<DirReply>, Option<FsError>), FsError>)
        requires
            old(self)@.inodes.next + entries_room(old(self)@.filter, old(self)@.prune_depth, entries@) < u64::MAX,
        ensures
            table_wf(final(self)@.inodes),
            final(self)@.filter == old(self)@.filter,
            final(self)@.prune_depth == old(self)@.prune_depth,
            final(self)@.files == old(self)@.files,
            !old(self)@.inodes.nodes.contains_key(ino) ==> r is Err && r->Err_0 == FsError::NotFound
                && final(self)@ == old(self)@,
            old(self)@.inodes.nodes.contains_key(ino) && !is_dir ==> r is Err && r->Err_0 == FsError::NotDir
                && final(self)@ == old(self)@,
            old(self)@.inodes.nodes.contains_key(ino) && is_dir ==> (r matches Ok((replies, err)) && {
                let shown = shown_of(old(self)@.filter, old(self)@.prune_depth, entries@);
                let l = entries_listing(old(self)@.inodes, offset, shown, shown.len());
                &&& replies@.map_values(|d: DirReply| d@)
                    == dots_listing(ino, old(self)@.inodes.nodes[ino].1, offset) + l.replies
                &&& err == l.error
                &&& final(self)@.inodes == l.inodes
                &&& offset == 0 ==> replies@.len() >= 2 && replies@[0].ino == ino && replies@[0].offset == 1
                    && replies@[0].name@ == seq!['.'] && replies@[0].kind == FileKind::Directory
                &&& offset <= 1 ==> replies@.len() >= 2 - offset
                    && replies@[1 - offset].ino == old(self)@.inodes.nodes[ino].1
                    && replies@[1 - offset].offset == 2 && replies@[1 - offset].name@ == seq!['.', '.']
                    && replies@[1 - offset].kind == FileKind::Directory
            }),
    {
        proof { use_type_invariant(&*self); }
        let parent = match self.inoman.parent(ino) {
            Some(p) => p,
            None => return Err(FsError::NotFound),
        };
        if !is_dir {
            return Err(FsError::NotDir);
        }
        let shown = self.select_shown(entries);
        let ghost t0 = self@.inodes;
        let ghost dots = dots_listing(ino, parent, offset);
        let mut out: Vec<DirReply> = Vec::new();
        if offset == 0 {
            let name = String::from_str(".");
            out.push(DirReply { ino, offset: 1, kind: FileKind::Directory, name });
        }
        if offset <= 1 {
            let name = String::from_str("..");
            out.push(DirReply { ino: parent, offset: 2, kind: FileKind::Directory, name });
        }
        proof {
            assert(seq!['.'] =~= "."@) by { reveal_strlit("."); }
            assert(seq!['.', '.'] =~= ".."@) by { reveal_strlit(".."); }
            assert(out@.map_values(|d: DirReply| d@) =~= dots + entries_listing(t0, offset, shown@, 0).replies);
            lemma_listing_room_grows(shown@, 0, shown@.len());
        }
        let mut inoman = INodeManager::new("");
        std::mem::swap(&mut self.inoman, &mut inoman);
        let mut err: Option<FsError> = None;
        let mut i: usize = 0;
        while i < shown.len()
            invariant
                i <= shown@.len(),
                table_wf(inoman@),
                inoman@.next <= t0.next + listing_room(shown@, i as nat),
                t0.next + listing_room(shown@, shown@.len()) < u64::MAX,
                2 <= t0.next,
                shown@.len() <= listing_room(shown@, shown@.len()),
                entries_listing(t0, offset, shown@, i as nat).inodes == inoman@,
                entries_listing(t0, offset, shown@, i as nat).error == err,
                out@.map_values(|d: DirReply| d@) == dots + entries_listing(t0, offset, shown@, i as nat).replies,
            decreases shown@.len() - i,
        {
            proof { lemma_listing_room_grows(shown@, (i + 1) as nat, shown@.len()); }
            let ghost before = out@.map_values(|d: DirReply| d@);
            if err.is_none() && (i as u64) + 2 >= offset {
                match &shown[i] {
                    ShownEntry::Unreadable => {
                        err = Some(FsError::Io);
                    },
                    ShownEntry::Entry { path, kind } => {
                        let n = inoman.ino(path.as_str());
                        match (kind, file_name(path.as_str())) {
                            (Some(k), Some(name)) => {
                                out.push(DirReply { ino: n, offset: (i as u64) + 3, kind: *k, name: name.to_string() });
                                assert(out@.map_values(|d: DirReply| d@) =~= before.push(
                                    (n, ((i as u64) + 3) as u64, *k, name@),
                                ));
                            },
                            _ => {
                                err = Some(FsError::Io);
                            },
                        }
                    },
                }
            }
            i = i + 1;
        }
        self.inoman = inoman;
        proof {
            let v = out@.map_values(|d: DirReply| d@);
            let lr = entries_listing(t0, offset, shown@, shown@.len()).replies;
            assert(v == dots + lr);
            if offset == 0 {
                assert(v[0] == dots[0]);
                assert(out@[0]@ == v[0]);
            }
            if offset <= 1 {
                let k = 1 - offset;
                assert(v[k] == dots[k]);
                assert(out@[k]@ == v[k]);
            }
        }
        Ok((out, err))
    }
}

}
