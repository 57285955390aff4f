use vstd::prelude::*;
use crate::filter::{dir_shown, file_shown, Filter, FilterModel};

verus! {

/// One entry of a directory listing, as the file system gave it: either an
/// entry that could not be read, or a path with its file name (absent when the
/// name is not text) and whether it is a directory.
pub enum DirEntryInfo<P> {
    Unreadable,
    Entry { path: P, name: Option<String>, is_dir: bool },
}

/// A name that may be absent, by its characters.
pub open spec fn name_chars(name: Option<String>) -> Option<Seq<char>> {
    match name {
        Some(s) => Some(s@),
        None => None,
    }
}

/// A directory listing: the entries in the order read, or nothing when the
/// directory could not be read.
pub open spec fn listing_view<P>(l: Option<Vec<DirEntryInfo<P>>>) -> Option<Seq<DirEntryInfo<P>>> {
    match l {
        Some(v) => Some(v@),
        None => None,
    }
}

/// The outcome of a search for a visible entry, given the listings read so
/// far: the answer (`None` while another listing is needed), and the
/// directories read, in order (with the one needed next last, while there is one).
pub struct Run<P> {
    pub result: Option<bool>,
    pub reads: Seq<P>,
}

/// Whether the directory `dir` is empty as far as `depth` levels down, when
/// the directory reads give the listings of `log` in turn: a directory is
/// empty when it holds no shown file and no shown directory that is itself
/// non-empty one level further down. At depth zero, or when the directory
/// cannot be read, it counts as not empty; an entry that cannot be read makes
/// it not empty too.
pub open spec fn dir_run<P>(f: FilterModel, dir: P, depth: nat, log: Seq<Option<Seq<DirEntryInfo<P>>>>) -> Run<P>
    decreases depth, 1nat, 0nat,
{
    if depth == 0 {
        Run { result: Some(false), reads: Seq::empty() }
    } else if log.len() == 0 {
        Run { result: None, reads: seq![dir] }
    } else {
        match log[0] {
            None => Run { result: Some(false), reads: seq![dir] },
            Some(entries) => {
                let r = scan_run(f, entries, 0, depth, log.drop_first());
                Run { result: r.result, reads: seq![dir] + r.reads }
            },
        }
    }
}

/// Whether the entries from the `i`-th on show nothing, the directory they
/// belong to being searched `depth` levels down: the first entry that shows
/// something ends the search.
pub open spec fn scan_run<P>(
    f: FilterModel,
    entries: Seq<DirEntryInfo<P>>,
    i: nat,
    depth: nat,
    log: Seq<Option<Seq<DirEntryInfo<P>>>>,
) -> Run<P>
    decreases depth, 0nat, entries.len() - i,
{
    if i >= entries.len() {
        Run { result: Some(true), reads: Seq::empty() }
    } else {
        match entries[i as int] {
            DirEntryInfo::Unreadable => Run { result: Some(false), reads: Seq::empty() },
            DirEntryInfo::Entry { path, name, is_dir } => {
                if !is_dir {
                    if file_shown(f, name_chars(name)) {
                        Run { result: Some(false), reads: Seq::empty() }
                    } else {
                        scan_run(f, entries, i + 1, depth, log)
                    }
                } else if !dir_shown(f, name_chars(name)) {
                    scan_run(f, entries, i + 1, depth, log)
                } else if depth <= 1 {
                    Run { result: Some(false), reads: Seq::empty() }
                } else {
                    let c = dir_run(f, path, (depth - 1) as nat, log);
                    if c.result == Some(true) {
                        let rest = scan_run(f, entries, i + 1, depth, log.skip(c.reads.len() as int));
                        Run { result: rest.result, reads: c.reads + rest.reads }
                    } else {
                        c
                    }
                }
            },
        }
    }
}

/// A directory being searched: its entries, the next one to look at, and how
/// far down it is searched.
pub struct FrameModel<P> {
    pub entries: Seq<DirEntryInfo<P>>,
    pub next: nat,
    pub depth: nat,
}

/// The search continued from a stack of directories being searched: the top
/// one first, and each parent after its child turned out empty.
pub open spec fn stack_run<P>(f: FilterModel, frames: Seq<FrameModel<P>>, log: Seq<Option<Seq<DirEntryInfo<P>>>>) -> Run<P>
    decreases frames.len(),
{
    if frames.len() == 0 {
        Run { result: Some(true), reads: Seq::empty() }
    } else {
        let top = frames.last();
        let r = scan_run(f, top.entries, top.next, top.depth, log);
        if r.result == Some(true) {
            let rest = stack_run(f, frames.drop_last(), log.skip(r.reads.len() as int));
            Run { result: rest.result, reads: r.reads + rest.reads }
        } else {
            r
        }
    }
}

/// The search continued from reading `dir` (searched `depth` levels down),
/// and then the stack of directories it was found in.
pub open spec fn cont_run<P>(
    f: FilterModel,
    dir: P,
    depth: nat,
    frames: Seq<FrameModel<P>>,
    log: Seq<Option<Seq<DirEntryInfo<P>>>>,
) -> Run<P> {
    let c = dir_run(f, dir, depth, log);
    if c.result == Some(true) {
        let rest = stack_run(f, frames, log.skip(c.reads.len() as int));
        Run { result: rest.result, reads: c.reads + rest.reads }
    } else {
        c
    }
}

/// A run preceded by reads already done.
pub open spec fn after<P>(done: Seq<P>, r: Run<P>) -> Run<P> {
    Run { result: r.result, reads: done + r.reads }
}

proof fn lemma_dir_run_len<P>(f: FilterModel, dir: P, depth: nat, log: Seq<Option<Seq<DirEntryInfo<P>>>>)
    ensures
        dir_run(f, dir, depth, log).result is Some ==> dir_run(f, dir, depth, log).reads.len() <= log.len(),
        dir_run(f, dir, depth, log).result is None ==> dir_run(f, dir, depth, log).reads.len() == log.len() + 1,
    decreases depth, 1nat, 0nat,
{
    if depth > 0 && log.len() > 0 {
        if let Some(entries) = log[0] {
            lemma_scan_run_len(f, entries, 0, depth, log.drop_first());
        }
    }
}

proof fn lemma_scan_run_len<P>(
    f: FilterModel,
    entries: Seq<DirEntryInfo<P>>,
    i: nat,
    depth: nat,
    log: Seq<Option<Seq<DirEntryInfo<P>>>>,
)
    ensures
        scan_run(f, entries, i, depth, log).result is Some ==> scan_run(f, entries, i, depth, log).reads.len() <= log.len(),
        scan_run(f, entries, i, depth, log).result is None ==> scan_run(f, entries, i, depth, log).reads.len() == log.len() + 1,
    decreases depth, 0nat, entries.len() - i,
{
    if i < entries.len() {
        if let DirEntryInfo::Entry { path, name, is_dir } = entries[i as int] {
            if !is_dir {
                if !file_shown(f, name_chars(name)) {
                    lemma_scan_run_len(f, entries, i + 1, depth, log);
                }
            } else if !dir_shown(f, name_chars(name)) {
                lemma_scan_run_len(f, entries, i + 1, depth, log);
            } else if depth > 1 {
                let c = dir_run(f, path, (depth - 1) as nat, log);
                lemma_dir_run_len(f, path, (depth - 1) as nat, log);
                if c.result == Some(true) {
                    lemma_scan_run_len(f, entries, i + 1, depth, log.skip(c.reads.len() as int));
                }
            }
        }
    }
}

/// Looking at a shown directory entry of the top frame (searched further than
/// one level) means reading that directory next, and then going on with the
/// frame after that entry.
proof fn lemma_descend<P>(
    f: FilterModel,
    frames: Seq<FrameModel<P>>,
    path: P,
    log: Seq<Option<Seq<DirEntryInfo<P>>>>,
)
    requires
        frames.len() > 0,
        frames.last().next < frames.last().entries.len(),
        frames.last().depth > 1,
        frames.last().entries[frames.last().next as int] matches DirEntryInfo::Entry { path: p, name, is_dir }
            && p == path && is_dir && dir_shown(f, name_chars(name)),
    ensures
        stack_run(f, frames, log) == cont_run(
            f,
            path,
            (frames.last().depth - 1) as nat,
            frames.drop_last().push(FrameModel { next: frames.last().next + 1, ..frames.last() }),
            log,
        ),
{
    let top = frames.last();
    let top2 = FrameModel { next: top.next + 1, ..top };
    let frames2 = frames.drop_last().push(top2);
    let d = (top.depth - 1) as nat;
    let c = dir_run(f, path, d, log);
    assert(frames2.last() == top2);
    assert(frames2.drop_last() =~= frames.drop_last());
    lemma_dir_run_len(f, path, d, log);
    if c.result == Some(true) {
        let l2 = log.skip(c.reads.len() as int);
        let rest = scan_run(f, top.entries, top.next + 1, top.depth, l2);
        lemma_scan_run_len(f, top.entries, top.next + 1, top.depth, l2);
        if rest.result == Some(true) {
            let l3 = l2.skip(rest.reads.len() as int);
            assert(l3 =~= log.skip((c.reads + rest.reads).len() as int));
            let up = stack_run(f, frames.drop_last(), l3);
            assert(c.reads + (rest.reads + up.reads) =~= (c.reads + rest.reads) + up.reads);
        }
    }
}

/// When the top frame has no entries left, the search goes on with its parent.
proof fn lemma_pop<P>(f: FilterModel, frames: Seq<FrameModel<P>>, log: Seq<Option<Seq<DirEntryInfo<P>>>>)
    requires
        frames.len() > 0,
        frames.last().next >= frames.last().entries.len(),
    ensures
        stack_run(f, frames, log) == stack_run(f, frames.drop_last(), log),
{
    assert(log.skip(0) =~= log);
    let rest = stack_run(f, frames.drop_last(), log);
    assert(Seq::<P>::empty() + rest.reads =~= rest.reads);
}

/// Passing over an entry that shows nothing goes on with the next one.
proof fn lemma_skip<P>(f: FilterModel, frames: Seq<FrameModel<P>>, log: Seq<Option<Seq<DirEntryInfo<P>>>>)
    requires
        frames.len() > 0,
        frames.last().next < frames.last().entries.len(),
        scan_run(f, frames.last().entries, frames.last().next, frames.last().depth, log)
            == scan_run(f, frames.last().entries, frames.last().next + 1, frames.last().depth, log),
    ensures
        stack_run(f, frames, log) == stack_run(
            f,
            frames.drop_last().push(FrameModel { next: frames.last().next + 1, ..frames.last() }),
            log,
        ),
{
    let top = frames.last();
    let frames2 = frames.drop_last().push(FrameModel { next: top.next + 1, ..top });
    assert(frames2.drop_last() =~= frames.drop_last());
}


/// Handing back the listing of the directory read turns it into the top frame.
proof fn lemma_feed_entries<P>(
    f: FilterModel,
    dir: P,
    depth: nat,
    frames: Seq<FrameModel<P>>,
    entries: Seq<DirEntryInfo<P>>,
    log: Seq<Option<Seq<DirEntryInfo<P>>>>,
)
    requires
        depth >= 1,
    ensures
        after(seq![dir], stack_run(f, frames.push(FrameModel { entries, next: 0, depth }), log))
            == cont_run(f, dir, depth, frames, seq![Some(entries)] + log),
{
    let full = seq![Some(entries)] + log;
    assert(full.drop_first() =~= log);
    let frames2 = frames.push(FrameModel { entries, next: 0, depth });
    assert(frames2.drop_last() =~= frames);
    let sc = scan_run(f, entries, 0, depth, log);
    lemma_scan_run_len(f, entries, 0, depth, log);
    if sc.result == Some(true) {
        assert(full.skip((seq![dir] + sc.reads).len() as int) =~= log.skip(sc.reads.len() as int));
        let up = stack_run(f, frames, log.skip(sc.reads.len() as int));
        assert(seq![dir] + (sc.reads + up.reads) =~= (seq![dir] + sc.reads) + up.reads);
    }
}

/// Entries in reverse order.
fn reversed<E>(v: Vec<E>) -> (r: Vec<E>)
    ensures
        r@.len() == v@.len(),
        forall|k: int| 0 <= k < r@.len() ==> #[trigger] r@[k] == v@[v@.len() - 1 - k],
{
    let ghost all = v@;
    let mut v = v;
    let mut r: Vec<E> = Vec::new();
    while v.len() > 0
        invariant
            r@.len() + v@.len() == all.len(),
            v@ == all.take(v@.len() as int),
            forall|k: int| 0 <= k < r@.len() ==> #[trigger] r@[k] == all[all.len() - 1 - k],
        decreases v@.len(),
    {
        let ghost before = v@;
        match v.pop() {
            Some(e) => {
                assert(v@ =~= all.take(v@.len() as int));
                r.push(e);
            },
            None => {},
        }
    }
    r
}


/// Scanning from an entry at or before a shown file never finds the entries empty.
proof fn lemma_scan_sees_file<P>(
    f: FilterModel,
    entries: Seq<DirEntryInfo<P>>,
    j: nat,
    i: nat,
    depth: nat,
    log: Seq<Option<Seq<DirEntryInfo<P>>>>,
)
    requires
        j <= i < entries.len(),
        entries[i as int] matches DirEntryInfo::Entry { name, is_dir, .. } && !is_dir && file_shown(f, name_chars(name)),
    ensures
        scan_run(f, entries, j, depth, log).result != Some(true),
    decreases i - j,
{
    if j < i {
        if let DirEntryInfo::Entry { path, name, is_dir } = entries[j as int] {
            if !is_dir {
                lemma_scan_sees_file(f, entries, j + 1, i, depth, log);
            } else if !dir_shown(f, name_chars(name)) {
                lemma_scan_sees_file(f, entries, j + 1, i, depth, log);
            } else if depth > 1 {
                let c = dir_run(f, path, (depth - 1) as nat, log);
                if c.result == Some(true) {
                    lemma_scan_sees_file(f, entries, j + 1, i, depth, log.skip(c.reads.len() as int));
                }
            }
        }
    }
}

/// A directory that holds a file the rules show is never pruned: searched at
/// any depth, it is not found empty.
pub proof fn law_shown_file_keeps_directory<P>(
    f: FilterModel,
    dir: P,
    depth: nat,
    log: Seq<Option<Seq<DirEntryInfo<P>>>>,
    i: int,
)
    requires
        log.len() > 0,
        log[0] matches Some(entries) && 0 <= i < entries.len()
            && (entries[i] matches DirEntryInfo::Entry { name, is_dir, .. } && !is_dir && file_shown(f, name_chars(name))),
    ensures
        dir_run(f, dir, depth, log).result != Some(true),
{
    if depth > 0 {
        let entries = log[0]->0;
        lemma_scan_sees_file(f, entries, 0, i as nat, depth, log.drop_first());
    }
}

/// A directory that cannot be read, or that is reached with no levels left to
/// search, counts as not empty, so it is never pruned.
pub proof fn law_unsearched_directory_is_kept<P>(
    f: FilterModel,
    dir: P,
    depth: nat,
    log: Seq<Option<Seq<DirEntryInfo<P>>>>,
)
    requires
        depth == 0 || (log.len() > 0 && log[0] is None),
    ensures
        dir_run(f, dir, depth, log).result == Some(false),
{
}

/// A directory whose listing holds only entries the rules hide is empty, and
/// needs no further reads.
pub proof fn law_hidden_entries_make_empty<P>(
    f: FilterModel,
    dir: P,
    depth: nat,
    log: Seq<Option<Seq<DirEntryInfo<P>>>>,
)
    requires
        depth > 0,
        log.len() > 0,
        log[0] matches Some(entries) && forall|k: int| 0 <= k < entries.len() ==> (#[trigger] entries[k] matches DirEntryInfo::Entry { name, is_dir, .. }
            && if is_dir { !dir_shown(f, name_chars(name)) } else { !file_shown(f, name_chars(name)) }),
    ensures
        dir_run(f, dir, depth, log).result == Some(true),
        dir_run(f, dir, depth, log).reads == seq![dir],
{
    let entries = log[0]->0;
    lemma_scan_hidden(f, entries, 0, depth, log.drop_first());
    assert(seq![dir] + Seq::<P>::empty() =~= seq![dir]);
}

proof fn lemma_scan_hidden<P>(
    f: FilterModel,
    entries: Seq<DirEntryInfo<P>>,
    j: nat,
    depth: nat,
    log: Seq<Option<Seq<DirEntryInfo<P>>>>,
)
    requires
        forall|k: int| 0 <= k < entries.len() ==> (#[trigger] entries[k] matches DirEntryInfo::Entry { name, is_dir, .. }
            && if is_dir { !dir_shown(f, name_chars(name)) } else { !file_shown(f, name_chars(name)) }),
    ensures
        scan_run(f, entries, j, depth, log) == (Run::<P> { result: Some(true), reads: Seq::empty() }),
    decreases entries.len() - j,
{
    if j < entries.len() {
        assert(entries[j as int] matches DirEntryInfo::Entry { .. });
        lemma_scan_hidden(f, entries, j + 1, depth, log);
    }
}


/// A listing that could be read, in which every entry could be read and every
/// file is hidden by the rules.
pub open spec fn listing_quiet<P>(f: FilterModel, l: Option<Seq<DirEntryInfo<P>>>) -> bool {
    l matches Some(es) && forall|i: int| 0 <= i < es.len() ==> (#[trigger] es[i] matches DirEntryInfo::Entry { name, is_dir, .. }
        && (!is_dir ==> !file_shown(f, name_chars(name))))
}

proof fn lemma_dir_quiet<P>(f: FilterModel, dir: P, depth: nat, log: Seq<Option<Seq<DirEntryInfo<P>>>>)
    ensures
        dir_run(f, dir, depth, log).result == Some(true) ==> {
            &&& dir_run(f, dir, depth, log).reads.len() <= log.len()
            &&& forall|k: int| 0 <= k < dir_run(f, dir, depth, log).reads.len() ==> listing_quiet(f, #[trigger] log[k])
        },
    decreases depth, 1nat, 0nat,
{
    if depth > 0 && log.len() > 0 {
        if let Some(entries) = log[0] {
            let rest = log.drop_first();
            lemma_scan_quiet(f, entries, 0, depth, rest);
            let r = scan_run(f, entries, 0, depth, rest);
            if r.result == Some(true) {
                assert forall|k: int| 0 <= k < dir_run(f, dir, depth, log).reads.len() implies listing_quiet(f, #[trigger] log[k]) by {
                    if k > 0 {
                        assert(log[k] == rest[k - 1]);
                    }
                }
            }
        }
    }
}

proof fn lemma_scan_quiet<P>(
    f: FilterModel,
    entries: Seq<DirEntryInfo<P>>,
    j: nat,
    depth: nat,
    log: Seq<Option<Seq<DirEntryInfo<P>>>>,
)
    ensures
        scan_run(f, entries, j, depth, log).result == Some(true) ==> {
            &&& scan_run(f, entries, j, depth, log).reads.len() <= log.len()
            &&& forall|k: int| 0 <= k < scan_run(f, entries, j, depth, log).reads.len() ==> listing_quiet(f, #[trigger] log[k])
            &&& forall|i: int| j <= i < entries.len() ==> (#[trigger] entries[i] matches DirEntryInfo::Entry { name, is_dir, .. }
                && (!is_dir ==> !file_shown(f, name_chars(name))))
        },
    decreases depth, 0nat, entries.len() - j,
{
    if j < entries.len() {
        if let DirEntryInfo::Entry { path, name, is_dir } = entries[j as int] {
            if !is_dir || !dir_shown(f, name_chars(name)) {
                lemma_scan_quiet(f, entries, j + 1, depth, log);
            } else if depth > 1 {
                let c = dir_run(f, path, (depth - 1) as nat, log);
                lemma_dir_quiet(f, path, (depth - 1) as nat, log);
                if c.result == Some(true) {
                    let l2 = log.skip(c.reads.len() as int);
                    lemma_scan_quiet(f, entries, j + 1, depth, l2);
                    let rest = scan_run(f, entries, j + 1, depth, l2);
                    if rest.result == Some(true) {
                        assert forall|k: int| 0 <= k < (c.reads + rest.reads).len() implies listing_quiet(f, #[trigger] log[k]) by {
                            if k >= c.reads.len() {
                                assert(log[k] == l2[k - c.reads.len()]);
                            }
                        }
                    }
                }
            }
        }
    }
}

/// A directory is pruned only when nothing under it shows: every listing its
/// search read could be read, and held only readable entries and files the
/// rules hide (the directories in it being themselves hidden or pruned).
pub proof fn law_pruned_directory_shows_nothing<P>(
    f: FilterModel,
    dir: P,
    depth: nat,
    log: Seq<Option<Seq<DirEntryInfo<P>>>>,
)
    requires
        dir_run(f, dir, depth, log).result == Some(true),
    ensures
        dir_run(f, dir, depth, log).reads.len() <= log.len(),
        forall|k: int| 0 <= k < dir_run(f, dir, depth, log).reads.len() ==> listing_quiet(f, #[trigger] log[k]),
{
    lemma_dir_quiet(f, dir, depth, log);
}

/// What to do next in a search: read a directory and hand its listing back, or
/// take the answer (whether the directory searched is empty).
pub enum PruneStep<P> {
    Read(P),
    Done(bool),
}

/// A directory being searched: the entries not yet looked at, last first.
struct Frame<P> {
    rest: Vec<DirEntryInfo<P>>,
    depth: usize,
    all: Ghost<Seq<DirEntryInfo<P>>>,
}

spec fn frame_ok<P>(fr: Frame<P>) -> bool {
    &&& fr.rest@.len() <= fr.all@.len()
    &&& forall|k: int| 0 <= k < fr.rest@.len() ==> #[trigger] fr.rest@[k] == fr.all@[fr.all@.len() - 1 - k]
    &&& fr.depth >= 1
}

spec fn frame_model<P>(fr: Frame<P>) -> FrameModel<P> {
    FrameModel { entries: fr.all@, next: (fr.all@.len() - fr.rest@.len()) as nat, depth: fr.depth as nat }
}

spec fn frames_model<P>(frs: Seq<Frame<P>>) -> Seq<FrameModel<P>> {
    frs.map_values(|fr: Frame<P>| frame_model(fr))
}

spec fn frames_measure<P>(frs: Seq<Frame<P>>) -> nat
    decreases frs.len(),
{
    if frs.len() == 0 {
        0
    } else {
        frames_measure(frs.drop_last()) + frs.last().rest@.len() + 1
    }
}

/// A search for a shown entry under a directory, a bounded number of levels
/// down, that reads one directory at a time: the caller reads the directory
/// asked for and hands its listing back, until the answer comes.
pub struct PruneSearch<P> {
    frames: Vec<Frame<P>>,
    pending_depth: usize,
    waiting: bool,
    root: Ghost<P>,
    depth: Ghost<nat>,
    filter: Ghost<FilterModel>,
    log: Ghost<Seq<Option<Seq<DirEntryInfo<P>>>>>,
    done: Ghost<Seq<P>>,
    pending: Ghost<P>,
}

impl<P> PruneSearch<P> {
    /// The directory searched.
    pub closed spec fn root(&self) -> P {
        self.root@
    }

    /// How many levels down it is searched.
    pub closed spec fn depth(&self) -> nat {
        self.depth@
    }

    /// The rules it is searched with.
    pub closed spec fn filter(&self) -> FilterModel {
        self.filter@
    }

    /// The listings handed back so far, in order.
    pub closed spec fn log(&self) -> Seq<Option<Seq<DirEntryInfo<P>>>> {
        self.log@
    }

    /// Whether a listing is awaited.
    pub closed spec fn waiting(&self) -> bool {
        self.waiting
    }

    /// The search as far as the listings handed back allow.
    pub open spec fn run(&self) -> Run<P> {
        dir_run(self.filter(), self.root(), self.depth(), self.log())
    }

    /// The step matches the search: a read is asked for exactly the directory
    /// the search needs next, and an answer is given once it is known and
    /// every listing handed back was used.
    pub open spec fn step_ok(&self, step: PruneStep<P>) -> bool {
        match step {
            PruneStep::Read(p) => {
                &&& self.waiting()
                &&& self.run().result is None
                &&& self.run().reads.len() == self.log().len() + 1
                &&& self.run().reads.last() == p
            },
            PruneStep::Done(b) => {
                &&& !self.waiting()
                &&& self.run().result == Some(b)
                &&& self.run().reads.len() == self.log().len()
            },
        }
    }

    closed spec fn inv(&self) -> bool {
        &&& self.done@.len() == self.log@.len()
        &&& forall|k: int| 0 <= k < self.frames@.len() ==> frame_ok(#[trigger] self.frames@[k])
        &&& self.waiting ==> {
            &&& self.pending_depth >= 1
            &&& forall|rest: Seq<Option<Seq<DirEntryInfo<P>>>>| #[trigger] dir_run(self.filter@, self.root@, self.depth@, self.log@ + rest)
                == after(self.done@, cont_run(self.filter@, self.pending@, self.pending_depth as nat, frames_model(self.frames@), rest))
        }
    }

    /// The search is in a consistent state.
    pub closed spec fn wf(&self) -> bool {
        self.inv()
    }

    closed spec fn scan_inv(&self) -> bool {
        &&& self.done@.len() == self.log@.len()
        &&& forall|k: int| 0 <= k < self.frames@.len() ==> frame_ok(#[trigger] self.frames@[k])
        &&& forall|rest: Seq<Option<Seq<DirEntryInfo<P>>>>| #[trigger] dir_run(self.filter@, self.root@, self.depth@, self.log@ + rest)
            == after(self.done@, stack_run(self.filter@, frames_model(self.frames@), rest))
    }

    /// Hands back the listing of the directory asked for (`None` when it could
    /// not be read) and gives the next step.
    pub fn feed(&mut self, filter: &Filter, listing: Option<Vec<DirEntryInfo<P>>>) -> (step: PruneStep<P>)
        requires
            old(self).wf(),
            old(self).waiting(),
            filter@ == old(self).filter(),
        ensures
            final(self).wf(),
            final(self).root() == old(self).root(),
            final(self).depth() == old(self).depth(),
            final(self).filter() == old(self).filter(),
            final(self).log() == old(self).log().push(listing_view(listing)),
            final(self).step_ok(step),
    {
        let ghost x = listing_view(listing);
        let ghost old_log = self.log@;
        let ghost old_done = self.done@;
        let ghost pend = self.pending@;
        let ghost pd = self.pending_depth as nat;
        let ghost fm = frames_model(self.frames@);
        self.log = Ghost(self.log@.push(x));
        self.done = Ghost(self.done@.push(self.pending@));
        match listing {
            None => {
                self.waiting = false;
                proof {
                    let rest = seq![x];
                    assert(old_log + rest =~= self.log@);
                    assert(self.log@ + Seq::empty() =~= self.log@);
                    assert(rest.drop_first() =~= Seq::<Option<Seq<DirEntryInfo<P>>>>::empty());
                    assert(old_done + seq![pend] =~= self.done@);
                }
                PruneStep::Done(false)
            },
            Some(entries) => {
                let ghost es = entries@;
                let rest = reversed(entries);
                let fr = Frame { rest, depth: self.pending_depth, all: Ghost(es) };
                self.frames.push(fr);
                proof {
                    assert(frames_model(self.frames@) =~= fm.push(FrameModel { entries: es, next: 0, depth: pd }));
                    assert forall|r: Seq<Option<Seq<DirEntryInfo<P>>>>| #[trigger] dir_run(self.filter@, self.root@, self.depth@, self.log@ + r)
                        == after(self.done@, stack_run(self.filter@, frames_model(self.frames@), r)) by {
                        let r0 = seq![x] + r;
                        assert(old_log + r0 =~= self.log@ + r);
                        lemma_feed_entries(self.filter@, pend, pd, fm, es, r);
                        let st = stack_run(self.filter@, frames_model(self.frames@), r);
                        assert(old_done + (seq![pend] + st.reads) =~= self.done@ + st.reads);
                    }
                    assert forall|k: int| 0 <= k < self.frames@.len() implies frame_ok(#[trigger] self.frames@[k]) by {
                        if k < self.frames@.len() - 1 {
                            assert(self.frames@[k] == old(self).frames@[k]);
                        }
                    }
                }
                self.advance(filter)
            },
        }
    }

    /// Looks at the entries of the directories being searched until one needs
    /// a read, or the answer is known.
    fn advance(&mut self, filter: &Filter) -> (step: PruneStep<P>)
        requires
            old(self).scan_inv(),
            filter@ == old(self).filter@,
        ensures
            final(self).wf(),
            final(self).root@ == old(self).root@,
            final(self).depth@ == old(self).depth@,
            final(self).filter@ == old(self).filter@,
            final(self).log@ == old(self).log@,
            final(self).step_ok(step),
    {
        loop
            invariant
                self.scan_inv(),
                self.root@ == old(self).root@,
                self.depth@ == old(self).depth@,
                self.filter@ == old(self).filter@,
                self.log@ == old(self).log@,
                filter@ == self.filter@,
            decreases frames_measure(self.frames@),
        {
            let ghost fm = frames_model(self.frames@);
            let ghost frs = self.frames@;
            let mut top = match self.frames.pop() {
                Some(t) => t,
                None => {
                    self.waiting = false;
                    proof {
                        assert(fm =~= Seq::<FrameModel<P>>::empty());
                        assert(self.log@ + Seq::empty() =~= self.log@);
                        assert(self.done@ + Seq::<P>::empty() =~= self.done@);
                    }
                    return PruneStep::Done(true);
                },
            };
            assert(frs.drop_last() =~= self.frames@);
            assert(fm.drop_last() =~= frames_model(self.frames@));
            assert(frame_ok(top));
            assert(fm.last() == frame_model(top));
            let ghost tm = frame_model(top);
            match top.rest.pop() {
                None => {
                    proof {
                        assert forall|r: Seq<Option<Seq<DirEntryInfo<P>>>>| #[trigger] dir_run(self.filter@, self.root@, self.depth@, self.log@ + r)
                            == after(self.done@, stack_run(self.filter@, frames_model(self.frames@), r)) by {
                            lemma_pop(self.filter@, fm, r);
                        }
                        assert(frames_measure(frs) == frames_measure(self.frames@) + 1);
                    }
                },
                Some(entry) => {
                    let ghost i = tm.next;
                    assert(entry == tm.entries[i as int]);
                    let ghost tm2 = FrameModel { next: tm.next + 1, ..tm };
                    assert(frame_model(top) == tm2);
                    match entry {
                        DirEntryInfo::Unreadable => {
                            self.waiting = false;
                            proof {
                                assert(self.log@ + Seq::empty() =~= self.log@);
                                assert(self.done@ + Seq::<P>::empty() =~= self.done@);
                            }
                            return PruneStep::Done(false);
                        },
                        DirEntryInfo::Entry { path, name, is_dir } => {
                            let n = match &name {
                                Some(t) => Some(t.as_str()),
                                None => None,
                            };
                            assert(crate::paths::opt_chars(n) == name_chars(name));
                            let shows_nothing = if !is_dir {
                                !filter.include_file_name(n)
                            } else {
                                !filter.include_dir_name(n)
                            };
                            if shows_nothing {
                                let ghost before = self.frames@;
                                self.frames.push(top);
                                proof {
                                    assert(frames_model(self.frames@) =~= fm.drop_last().push(tm2));
                                    assert forall|r: Seq<Option<Seq<DirEntryInfo<P>>>>| #[trigger] dir_run(self.filter@, self.root@, self.depth@, self.log@ + r)
                                        == after(self.done@, stack_run(self.filter@, frames_model(self.frames@), r)) by {
                                        lemma_skip(self.filter@, fm, r);
                                    }
                                    assert forall|k: int| 0 <= k < self.frames@.len() implies frame_ok(#[trigger] self.frames@[k]) by {
                                        if k < self.frames@.len() - 1 {
                                            assert(self.frames@[k] == frs[k]);
                                        }
                                    }
                                    assert(self.frames@.drop_last() =~= before);
                                }
                            } else if !is_dir || top.depth <= 1 {
                                self.waiting = false;
                                proof {
                                    assert(self.log@ + Seq::empty() =~= self.log@);
                                    assert(self.done@ + Seq::<P>::empty() =~= self.done@);
                                }
                                return PruneStep::Done(false);
                            } else {
                                let d = top.depth - 1;
                                self.frames.push(top);
                                self.pending_depth = d;
                                self.pending = Ghost(path);
                                self.waiting = true;
                                proof {
                                    assert(frames_model(self.frames@) =~= fm.drop_last().push(tm2));
                                    assert forall|r: Seq<Option<Seq<DirEntryInfo<P>>>>| #[trigger] dir_run(self.filter@, self.root@, self.depth@, self.log@ + r)
                                        == after(self.done@, cont_run(self.filter@, self.pending@, self.pending_depth as nat, frames_model(self.frames@), r)) by {
                                        lemma_descend(self.filter@, fm, path, r);
                                    }
                                    assert forall|k: int| 0 <= k < self.frames@.len() implies frame_ok(#[trigger] self.frames@[k]) by {
                                        if k < self.frames@.len() - 1 {
                                            assert(self.frames@[k] == frs[k]);
                                        }
                                    }
                                    assert(self.log@ + Seq::empty() =~= self.log@);
                                    assert(seq![path] =~= Seq::<P>::empty() + seq![path]);
                                    assert(self.done@ + seq![path] =~= self.done@.push(path));
                                }
                                return PruneStep::Read(path);
                            }
                        },
                    }
                },
            }
        }
    }

    /// Starts searching `dir`, `depth` levels down, with the rules of `filter`.
    pub fn start(filter: &Filter, dir: P, depth: usize) -> (r: (Self, PruneStep<P>))
        ensures
            r.0.wf(),
            r.0.root() == dir,
            r.0.depth() == depth,
            r.0.filter() == filter@,
            r.0.log() == Seq::<Option<Seq<DirEntryInfo<P>>>>::empty(),
            r.0.step_ok(r.1),
    {
        let ghost g_dir = dir;
        let s = PruneSearch {
            frames: Vec::new(),
            pending_depth: depth,
            waiting: depth > 0,
            root: Ghost(dir),
            depth: Ghost(depth as nat),
            filter: Ghost(filter@),
            log: Ghost(Seq::empty()),
            done: Ghost(Seq::empty()),
            pending: Ghost(dir),
        };
        if depth == 0 {
            (s, PruneStep::Done(false))
        } else {
            proof {
                assert forall|rest: Seq<Option<Seq<DirEntryInfo<P>>>>| #[trigger] dir_run(s.filter@, s.root@, s.depth@, s.log@ + rest)
                    == after(s.done@, cont_run(s.filter@, s.pending@, s.pending_depth as nat, frames_model(s.frames@), rest)) by {
                    assert(s.log@ + rest =~= rest);
                    let c = dir_run(s.filter@, g_dir, depth as nat, rest);
                    assert(frames_model(s.frames@) =~= Seq::<FrameModel<P>>::empty());
                    assert(c.reads + Seq::<P>::empty() =~= c.reads);
                    assert(Seq::<P>::empty() + c.reads =~= c.reads);
                }
                assert(s.run() == after(s.done@, cont_run(s.filter@, g_dir, depth as nat, frames_model(s.frames@), Seq::empty()))) by {
                    assert(s.log@ + Seq::<Option<Seq<DirEntryInfo<P>>>>::empty() =~= s.log@);
                }
                assert(seq![g_dir] =~= Seq::<P>::empty() + seq![g_dir]);
            }
            (s, PruneStep::Read(dir))
        }
    }
}

/// Whether `dir` is empty as far as `depth` levels down in a file system that
/// lists each directory as `fs` says (`None` when it cannot be read): the
/// emptiness that a search decides, stated directly.
pub open spec fn empty_in<P>(f: FilterModel, fs: spec_fn(P) -> Option<Seq<DirEntryInfo<P>>>, dir: P, depth: nat) -> bool
    decreases depth, 1nat, 0nat,
{
    if depth == 0 {
        false
    } else {
        match fs(dir) {
            None => false,
            Some(entries) => entries_empty_in(f, fs, entries, 0, depth),
        }
    }
}

/// Whether the entries from the `i`-th on show nothing, their directory being
/// searched `depth` levels down in the file system `fs`.
pub open spec fn entries_empty_in<P>(
    f: FilterModel,
    fs: spec_fn(P) -> Option<Seq<DirEntryInfo<P>>>,
    entries: Seq<DirEntryInfo<P>>,
    i: nat,
    depth: nat,
) -> bool
    decreases depth, 0nat, entries.len() - i,
{
    if i >= entries.len() {
        true
    } else {
        let rest = entries_empty_in(f, fs, entries, i + 1, depth);
        match entries[i as int] {
            DirEntryInfo::Unreadable => false,
            DirEntryInfo::Entry { path, name, is_dir } => {
                if !is_dir {
                    !file_shown(f, name_chars(name)) && rest
                } else if !dir_shown(f, name_chars(name)) {
                    rest
                } else if depth <= 1 {
                    false
                } else {
                    empty_in(f, fs, path, (depth - 1) as nat) && rest
                }
            },
        }
    }
}

/// The listings `log` are what the file system `fs` gives for the directories
/// read, in turn.
pub open spec fn reads_follow<P>(
    fs: spec_fn(P) -> Option<Seq<DirEntryInfo<P>>>,
    reads: Seq<P>,
    log: Seq<Option<Seq<DirEntryInfo<P>>>>,
) -> bool {
    forall|k: int| 0 <= k < reads.len() && k < log.len() ==> #[trigger] log[k] == fs(reads[k])
}

/// A search that read its listings from the file system `fs` answers whether
/// the directory is empty in it.
pub proof fn law_search_answers_emptiness<P>(
    f: FilterModel,
    fs: spec_fn(P) -> Option<Seq<DirEntryInfo<P>>>,
    dir: P,
    depth: nat,
    log: Seq<Option<Seq<DirEntryInfo<P>>>>,
)
    requires
        dir_run(f, dir, depth, log).result is Some,
        reads_follow(fs, dir_run(f, dir, depth, log).reads, log),
    ensures
        dir_run(f, dir, depth, log).result == Some(empty_in(f, fs, dir, depth)),
    decreases depth, 1nat, 0nat,
{
    if depth > 0 && log.len() > 0 {
        let r = dir_run(f, dir, depth, log);
        assert(r.reads[0] == dir);
        assert(log[0] == fs(dir));
        if let Some(entries) = log[0] {
            let s = scan_run(f, entries, 0, depth, log.drop_first());
            assert(reads_follow(fs, s.reads, log.drop_first())) by {
                assert forall|k: int| 0 <= k < s.reads.len() && k < log.drop_first().len()
                    implies #[trigger] log.drop_first()[k] == fs(s.reads[k]) by {
                    assert(r.reads[k + 1] == s.reads[k]);
                    assert(log[k + 1] == fs(r.reads[k + 1]));
                }
            }
            lemma_scan_answers(f, fs, entries, 0, depth, log.drop_first());
        }
    }
}

proof fn lemma_scan_answers<P>(
    f: FilterModel,
    fs: spec_fn(P) -> Option<Seq<DirEntryInfo<P>>>,
    entries: Seq<DirEntryInfo<P>>,
    i: nat,
    depth: nat,
    log: Seq<Option<Seq<DirEntryInfo<P>>>>,
)
    requires
        scan_run(f, entries, i, depth, log).result is Some,
        reads_follow(fs, scan_run(f, entries, i, depth, log).reads, log),
    ensures
        scan_run(f, entries, i, depth, log).result == Some(entries_empty_in(f, fs, entries, i, depth)),
    decreases depth, 0nat, entries.len() - i,
{
    if i < entries.len() {
        if let DirEntryInfo::Entry { path, name, is_dir } = entries[i as int] {
            if !is_dir {
                if !file_shown(f, name_chars(name)) {
                    lemma_scan_answers(f, fs, entries, i + 1, depth, log);
                }
            } else if !dir_shown(f, name_chars(name)) {
                lemma_scan_answers(f, fs, entries, i + 1, depth, log);
            } else if depth > 1 {
                let c = dir_run(f, path, (depth - 1) as nat, log);
                let r = scan_run(f, entries, i, depth, log);
                lemma_dir_run_len(f, path, (depth - 1) as nat, log);
                if c.result == Some(true) {
                    let n = c.reads.len() as int;
                    let rest = scan_run(f, entries, i + 1, depth, log.skip(n));
                    assert(r.reads == c.reads + rest.reads);
                    assert(reads_follow(fs, c.reads, log)) by {
                        assert forall|k: int| 0 <= k < c.reads.len() && k < log.len()
                            implies #[trigger] log[k] == fs(c.reads[k]) by {
                            assert(r.reads[k] == c.reads[k]);
                        }
                    }
                    law_search_answers_emptiness(f, fs, path, (depth - 1) as nat, log);
                    assert(reads_follow(fs, rest.reads, log.skip(n))) by {
                        assert forall|k: int| 0 <= k < rest.reads.len() && k < log.skip(n).len()
                            implies #[trigger] log.skip(n)[k] == fs(rest.reads[k]) by {
                            assert(r.reads[n + k] == rest.reads[k]);
                            assert(log[n + k] == fs(r.reads[n + k]));
                        }
                    }
                    lemma_scan_answers(f, fs, entries, i + 1, depth, log.skip(n));
                } else {
                    law_search_answers_emptiness(f, fs, path, (depth - 1) as nat, log);
                }
            }
        }
    }
}

/// Searching deeper can only find more directories empty: a directory empty as
/// far as `d1` levels down is empty as far as any `d2 >= d1` levels down.
pub proof fn law_emptiness_grows_with_depth<P>(
    f: FilterModel,
    fs: spec_fn(P) -> Option<Seq<DirEntryInfo<P>>>,
    dir: P,
    d1: nat,
    d2: nat,
)
    requires
        d1 <= d2,
        empty_in(f, fs, dir, d1),
    ensures
        empty_in(f, fs, dir, d2),
    decreases d1, 1nat, 0nat,
{
    if let Some(entries) = fs(dir) {
        lemma_entries_empty_grows(f, fs, entries, 0, d1, d2);
    }
}

proof fn lemma_entries_empty_grows<P>(
    f: FilterModel,
    fs: spec_fn(P) -> Option<Seq<DirEntryInfo<P>>>,
    entries: Seq<DirEntryInfo<P>>,
    i: nat,
    d1: nat,
    d2: nat,
)
    requires
        1 <= d1 <= d2,
        entries_empty_in(f, fs, entries, i, d1),
    ensures
        entries_empty_in(f, fs, entries, i, d2),
    decreases d1, 0nat, entries.len() - i,
{
    if i < entries.len() {
        lemma_entries_empty_grows(f, fs, entries, i + 1, d1, d2);
        if let DirEntryInfo::Entry { path, name, is_dir } = entries[i as int] {
            if is_dir && dir_shown(f, name_chars(name)) && d1 > 1 {
                law_emptiness_grows_with_depth(f, fs, path, (d1 - 1) as nat, (d2 - 1) as nat);
            }
        }
    }
}

/// A deeper search prunes more: when the file system stays the same, a search
/// `d1` levels down that finds a directory empty is followed by a search
/// `d2 >= d1` levels down that finds it empty too.
pub proof fn law_deeper_search_prunes_more<P>(
    f: FilterModel,
    fs: spec_fn(P) -> Option<Seq<DirEntryInfo<P>>>,
    dir: P,
    d1: nat,
    d2: nat,
    log1: Seq<Option<Seq<DirEntryInfo<P>>>>,
    log2: Seq<Option<Seq<DirEntryInfo<P>>>>,
)
    requires
        d1 <= d2,
        dir_run(f, dir, d1, log1).result == Some(true),
        reads_follow(fs, dir_run(f, dir, d1, log1).reads, log1),
        dir_run(f, dir, d2, log2).result is Some,
        reads_follow(fs, dir_run(f, dir, d2, log2).reads, log2),
    ensures
        dir_run(f, dir, d2, log2).result == Some(true),
{
    law_search_answers_emptiness(f, fs, dir, d1, log1);
    law_search_answers_emptiness(f, fs, dir, d2, log2);
    law_emptiness_grows_with_depth(f, fs, dir, d1, d2);
}

}
