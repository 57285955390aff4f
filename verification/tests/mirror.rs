use std::collections::{BTreeMap, HashSet};

use filterfs::filter::Filter;
use filterfs::filterfs::{AttrSource, EntryRead, FilterFS, FsError, ShownEntry, Visibility};
use filterfs::pattern::PatternRule;
use filterfs::prune::{DirEntryInfo, PruneSearch, PruneStep};
use filterfs::utils::FileKind;

/// A source tree: each directory's path with its entries (name, is a directory).
struct Tree {
    dirs: BTreeMap<String, Vec<(String, bool)>>,
}

impl Tree {
    fn new(root: &str) -> Self {
        let mut dirs = BTreeMap::new();
        dirs.insert(root.to_string(), Vec::new());
        Tree { dirs }
    }

    fn add(&mut self, path: &str, is_dir: bool) {
        let (parent, name) = path.rsplit_once('/').unwrap();
        if !self.dirs.contains_key(parent) {
            self.add(parent, true);
        }
        let entries = self.dirs.get_mut(parent).unwrap();
        if !entries.iter().any(|(n, _)| n == name) {
            entries.push((name.to_string(), is_dir));
        }
        if is_dir {
            self.dirs.entry(path.to_string()).or_default();
        }
    }

    fn listing(&self, dir: &str) -> Option<Vec<DirEntryInfo<String>>> {
        self.dirs.get(dir).map(|entries| {
            entries
                .iter()
                .map(|(n, d)| DirEntryInfo::Entry {
                    path: format!("{}/{}", dir, n),
                    name: Some(n.clone()),
                    is_dir: *d,
                })
                .collect()
        })
    }
}

/// The tree the mounted-file-system scenarios use, under `/src`.
fn scenario_tree() -> Tree {
    let mut t = Tree::new("/src");
    for f in ["doc1.pdf", "doc2.pdf", "file.txt", "whatever"] {
        t.add(&format!("/src/{}", f), false);
    }
    for d in ["lol/wtf/is/this", "lol/wtf/thing/this", "lol/xd/thing/this", "lol/1/thing/this", "1"] {
        t.add(&format!("/src/{}", d), true);
    }
    t
}

/// Whether a directory the rules show is empty, searching as the mirror does.
fn search_empty(filter: &Filter, tree: &Tree, dir: &str, depth: usize, reads: &mut Vec<String>) -> bool {
    let (mut search, mut step) = PruneSearch::start(filter, dir.to_string(), depth);
    loop {
        match step {
            PruneStep::Read(p) => {
                reads.push(p.clone());
                let listing = tree.listing(&p);
                step = search.feed(filter, listing);
            }
            PruneStep::Done(empty) => return empty,
        }
    }
}

/// The entries of directory `dir` as read, each with its kind and, where the
/// mirror asks for a search, the search's answer.
fn entry_reads(fs: &FilterFS<String>, tree: &Tree, dir: &str) -> Vec<EntryRead> {
    tree.listing(dir)
        .unwrap()
        .into_iter()
        .map(|info| {
            let empty = match (fs.entry_visibility(&info), &info) {
                (Visibility::Search, DirEntryInfo::Entry { path, .. }) => {
                    search_empty(fs.filter(), tree, path, fs.prune_depth(), &mut Vec::new())
                }
                _ => false,
            };
            let kind = match &info {
                DirEntryInfo::Entry { is_dir: true, .. } => Some(FileKind::Directory),
                DirEntryInfo::Entry { is_dir: false, .. } => Some(FileKind::RegularFile),
                DirEntryInfo::Unreadable => None,
            };
            EntryRead { info, kind, empty }
        })
        .collect()
}

/// The inode number of directory `dir` under `/src`, looked up step by step.
fn dir_ino(fs: &mut FilterFS<String>, dir: &str) -> u64 {
    let mut ino = 1;
    if let Some(rest) = dir.strip_prefix("/src/") {
        for name in rest.split('/') {
            ino = fs.lookup(ino, name, true).unwrap().0;
        }
    }
    ino
}

/// The names the mirror lists for directory `dir` (without `.` and `..`).
fn listed(fs: &mut FilterFS<String>, tree: &Tree, dir: &str) -> HashSet<String> {
    let ino = dir_ino(fs, dir);
    let reads = entry_reads(fs, tree, dir);
    assert!(fs.has_room_for_listing(&reads));
    let (out, err) = fs.readdir_listing(ino, true, 0, &reads).unwrap();
    assert_eq!(err, None);
    assert_eq!(out[0].name, ".");
    assert_eq!(out[1].name, "..");
    out[2..].iter().map(|d| d.name.clone()).collect()
}

fn set(names: &[&str]) -> HashSet<String> {
    names.iter().map(|s| s.to_string()).collect()
}

fn mirror(prune: usize, file_rules: &[PatternRule]) -> FilterFS<String> {
    FilterFS::new("/src", prune, Filter::new(file_rules, &[]))
}

#[test]
fn transparent_mirror_lists_everything() {
    let t = scenario_tree();
    let mut fs = mirror(0, &[]);
    assert_eq!(listed(&mut fs, &t, "/src"), set(&["doc1.pdf", "doc2.pdf", "file.txt", "whatever", "lol", "1"]));
}

#[test]
fn empty_source_lists_nothing() {
    let t = Tree::new("/src");
    let mut fs = mirror(0, &[]);
    assert_eq!(listed(&mut fs, &t, "/src"), set(&[]));
}

#[test]
fn only_pdf_mirror() {
    let t = scenario_tree();
    let mut fs = mirror(0, &[PatternRule::new_include("*.pdf").unwrap()]);
    assert_eq!(listed(&mut fs, &t, "/src"), set(&["doc1.pdf", "doc2.pdf", "lol", "1"]));
}

#[test]
fn no_pdf_mirror() {
    let t = scenario_tree();
    let mut fs = mirror(0, &[PatternRule::new_exclude("*.pdf").unwrap()]);
    assert_eq!(listed(&mut fs, &t, "/src"), set(&["file.txt", "whatever", "lol", "1"]));
    assert_eq!(listed(&mut fs, &t, "/src/1"), set(&[]));
}

#[test]
fn low_prune_drops_only_empty_top_directories() {
    let t = scenario_tree();
    let mut fs = mirror(1, &[PatternRule::new_exclude("*.pdf").unwrap()]);
    assert_eq!(listed(&mut fs, &t, "/src"), set(&["file.txt", "whatever", "lol"]));
}

#[test]
fn high_prune_drops_trees_without_files() {
    let t = scenario_tree();
    let mut fs = mirror(5, &[PatternRule::new_exclude("*.pdf").unwrap()]);
    assert_eq!(listed(&mut fs, &t, "/src"), set(&["file.txt", "whatever"]));
}

#[test]
fn prune_keeps_directory_with_a_shown_file_deep_down() {
    let mut t = scenario_tree();
    t.add("/src/lol/xd/thing/this/keep.txt", false);
    let mut fs = mirror(5, &[PatternRule::new_exclude("*.pdf").unwrap()]);
    assert_eq!(listed(&mut fs, &t, "/src"), set(&["file.txt", "whatever", "lol"]));
    // a hidden file does not keep a directory
    let mut t2 = scenario_tree();
    t2.add("/src/1/only.pdf", false);
    assert_eq!(listed(&mut fs, &t2, "/src"), set(&["file.txt", "whatever"]));
}

#[test]
fn prune_search_reads_depth_first_and_stops_early() {
    let mut t = Tree::new("/r");
    t.add("/r/a/x", true);
    t.add("/r/a/y.txt", false);
    t.add("/r/b", true);
    let filter = Filter::empty();
    let mut reads = Vec::new();
    // depth 3: /r, then /r/a, then /r/a/x (empty), then y.txt is shown: stop
    assert!(!search_empty(&filter, &t, "/r", 3, &mut reads));
    assert_eq!(reads, vec!["/r".to_string(), "/r/a".to_string(), "/r/a/x".to_string()]);

    let mut reads = Vec::new();
    assert!(!search_empty(&filter, &t, "/r", 0, &mut reads));
    assert!(reads.is_empty());

    // an unreadable directory counts as not empty
    let mut reads = Vec::new();
    assert!(!search_empty(&filter, &t, "/nowhere", 2, &mut reads));
    assert_eq!(reads, vec!["/nowhere".to_string()]);
}

#[test]
fn prune_search_unreadable_entry_keeps_directory() {
    let filter = Filter::empty();
    let (mut s, step) = PruneSearch::start(&filter, "d".to_string(), 2);
    assert!(matches!(step, PruneStep::Read(ref p) if p == "d"));
    let step = s.feed(&filter, Some(vec![DirEntryInfo::Unreadable]));
    assert!(matches!(step, PruneStep::Done(false)));
}

#[test]
fn lookup_hides_filtered_files() {
    let mut fs = mirror(5, &[PatternRule::new_exclude("*.pdf").unwrap()]);
    assert_eq!(fs.lookup(1, "doc1.pdf", false).err(), Some(FsError::NotFound));
    let (ino, path) = fs.lookup(1, "file.txt", false).unwrap();
    assert_eq!(ino, 2);
    assert_eq!(path, "/src/file.txt");
    // the same path keeps its number
    assert_eq!(fs.lookup(1, "file.txt", false).unwrap().0, 2);
    // unknown parent
    assert_eq!(fs.lookup(99, "file.txt", false).err(), Some(FsError::NotFound));
    assert!(fs.has_room_for(1, "file.txt"));
}

#[test]
fn lookup_judges_directories_by_directory_rules() {
    // only pdf files are shown, yet a listed directory can be entered
    let mut fs = mirror(0, &[PatternRule::new_include("*.pdf").unwrap()]);
    assert_eq!(fs.lookup_path(1, "lol").unwrap(), "/src/lol");
    assert_eq!(fs.lookup_path(9, "lol").err(), Some(FsError::NotFound));
    let (ino, path) = fs.lookup(1, "lol", true).unwrap();
    assert_eq!((ino, path.as_str()), (2, "/src/lol"));
    // judged as a file, the same name would be hidden
    assert_eq!(fs.lookup(1, "lol", false).err(), Some(FsError::NotFound));
    assert!(fs.lookup(1, "doc1.pdf", false).is_ok());

    // directory rules hide directories, not files
    let mut fs2: FilterFS<String> =
        FilterFS::new("/src", 0, Filter::new(&[], &[PatternRule::new_exclude("l*").unwrap()]));
    assert_eq!(fs2.lookup(1, "lol", true).err(), Some(FsError::NotFound));
    assert!(fs2.lookup(1, "lol.txt", false).is_ok());
    assert!(fs2.lookup(1, "xd", true).is_ok());

    // a listing gives a looked-up path the number the lookup gave, and a
    // path with the same components the same number
    let (listing, _) = replies(&mut fs, 1, 2, &vec![shown_entry("/src/lol", FileKind::Directory)]);
    assert_eq!(listing, vec![r(2, 3, "lol")]);
    assert_eq!(replies(&mut fs, 1, 2, &vec![shown_entry("/src//lol/", FileKind::Directory)]).0, vec![r(2, 3, "lol")]);
}

fn read_as(path: &str, kind: Option<FileKind>) -> EntryRead {
    let name = path.trim_end_matches('/').rsplit('/').next().map(|n| n.to_string());
    let is_dir = kind == Some(FileKind::Directory);
    EntryRead { info: DirEntryInfo::Entry { path: path.to_string(), name, is_dir }, kind, empty: false }
}

fn shown_entry(path: &str, kind: FileKind) -> EntryRead {
    read_as(path, Some(kind))
}

fn unreadable() -> EntryRead {
    EntryRead { info: DirEntryInfo::Unreadable, kind: None, empty: false }
}

fn replies(fs: &mut FilterFS<String>, ino: u64, offset: u64, shown: &Vec<EntryRead>) -> (Vec<(u64, u64, String)>, Option<FsError>) {
    assert!(fs.has_room_for_listing(shown));
    let (out, err) = fs.readdir_listing(ino, true, offset, shown).unwrap();
    (out.iter().map(|d| (d.ino, d.offset, d.name.clone())).collect(), err)
}

fn r(ino: u64, offset: u64, name: &str) -> (u64, u64, String) {
    (ino, offset, name.to_string())
}

#[test]
fn readdir_listing_offsets_and_resume() {
    let mut fs = mirror(0, &[]);
    let shown = vec![
        shown_entry("/src/a.txt", FileKind::RegularFile),
        shown_entry("/src/lol", FileKind::Directory),
        shown_entry("/src/z", FileKind::RegularFile),
    ];
    // each entry carries the offset of the entry after it
    let (all, err) = replies(&mut fs, 1, 0, &shown);
    assert_eq!(err, None);
    assert_eq!(all, vec![r(1, 1, "."), r(1, 2, ".."), r(2, 3, "a.txt"), r(3, 4, "lol"), r(4, 5, "z")]);
    let (out, _) = fs.readdir_listing(1, true, 0, &shown).unwrap();
    assert_eq!(out[0].kind, FileKind::Directory);
    assert_eq!(out[3].kind, FileKind::Directory);
    assert_eq!(out[4].kind, FileKind::RegularFile);

    // resuming at the offset of an entry lists exactly the entries after it
    for o in 0..=6u64 {
        let (part, err) = replies(&mut fs, 1, o, &shown);
        assert_eq!(err, None);
        assert_eq!(part, all.iter().skip(o as usize).cloned().collect::<Vec<_>>());
    }
    assert_eq!(replies(&mut fs, 1, 1, &shown).0[0], r(1, 2, ".."));

    // a subdirectory's ".." is its parent
    let (sub, _) = replies(&mut fs, 3, 0, &vec![]);
    assert_eq!(sub, vec![r(3, 1, "."), r(1, 2, "..")]);
    assert_eq!(fs.readdir_path(3).unwrap(), "/src/lol");
    assert_eq!(fs.readdir_path(42).err(), Some(FsError::NotFound));
    assert_eq!(fs.readdir_listing(42, true, 0, &shown).err(), Some(FsError::NotFound));
    // a path that is not a directory is refused, and nothing gets a number
    assert_eq!(fs.readdir_listing(2, false, 0, &shown).err(), Some(FsError::NotDir));
    assert_eq!(fs.readdir_path(5).err(), Some(FsError::NotFound));
}

#[test]
fn readdir_listing_stops_at_a_failing_entry() {
    let mut fs = mirror(0, &[]);
    let bad = vec![
        shown_entry("/src/a.txt", FileKind::RegularFile),
        unreadable(),
        shown_entry("/src/z", FileKind::RegularFile),
    ];
    let (part, err) = replies(&mut fs, 1, 1, &bad);
    assert_eq!(part, vec![r(1, 2, ".."), r(2, 3, "a.txt")]);
    assert_eq!(err, Some(FsError::Io));
    // an unreadable entry before the offset is not reached
    let (part, err) = replies(&mut fs, 1, 4, &bad);
    assert_eq!(part, vec![r(3, 5, "z")]);
    assert_eq!(err, None);
    // an entry whose kind is unknown fails too, after getting its number
    let unknown = vec![read_as("/src/q", None), shown_entry("/src/y", FileKind::Socket)];
    let (part, err) = replies(&mut fs, 1, 2, &unknown);
    assert!(part.is_empty());
    assert_eq!(err, Some(FsError::Io));
    assert_eq!(fs.readdir_path(4).unwrap(), "/src/q");
    assert_eq!(fs.readdir_path(5).err(), Some(FsError::NotFound));
}

#[test]
fn deeper_prune_search_finds_more_empty() {
    let t = scenario_tree();
    let filter = Filter::new(&[PatternRule::new_exclude("*.pdf").unwrap()], &[]);
    for dir in ["/src", "/src/lol", "/src/1", "/src/lol/wtf", "/src/lol/xd/thing"] {
        for d1 in 0..6 {
            for d2 in d1..7 {
                let e1 = search_empty(&filter, &t, dir, d1, &mut Vec::new());
                let e2 = search_empty(&filter, &t, dir, d2, &mut Vec::new());
                assert!(!e1 || e2, "{} at {} and {}", dir, d1, d2);
            }
        }
    }
    assert!(!search_empty(&filter, &t, "/src/lol", 1, &mut Vec::new()));
    assert!(search_empty(&filter, &t, "/src/lol", 5, &mut Vec::new()));
}

#[test]
fn open_read_release_handles() {
    let mut fs: FilterFS<String> = mirror(0, &[]);
    let (ino, _) = fs.lookup(1, "file.txt", false).unwrap();
    assert_eq!(fs.open_inode(ino, false).err(), Some(FsError::ReadOnly));
    assert_eq!(fs.open_inode(77, true).err(), Some(FsError::NotFound));
    let inode = fs.open_inode(ino, true).unwrap();
    assert_eq!(inode.path, "/src/file.txt");
    assert!(fs.can_open());
    let fh = fs.open_handle(Some("contents".to_string())).unwrap();
    assert_eq!(fh, 0);
    assert_eq!(fs.read_handle(fh).unwrap(), "contents");
    match fs.getattr(ino, Some(fh)).unwrap() {
        AttrSource::File(f) => assert_eq!(f, "contents"),
        AttrSource::Path(_) => panic!("expected the open file"),
    }
    match fs.getattr(ino, None).unwrap() {
        AttrSource::Path(p) => assert_eq!(p, "/src/file.txt"),
        AttrSource::File(_) => panic!("expected the path"),
    }
    assert_eq!(fs.getattr(123, None).err(), Some(FsError::Io));
    // a file that could not be opened still takes a number
    assert_eq!(fs.open_handle(None).err(), Some(FsError::Io));
    let fh2 = fs.open_handle(Some("other".to_string())).unwrap();
    assert_eq!(fh2, 2);
    fs.release(fh);
    assert_eq!(fs.read_handle(fh).err(), Some(FsError::BadHandle));
    assert_eq!(fs.getattr(ino, Some(fh)).err(), Some(FsError::Io));
    assert_eq!(fs.open_handle(Some("again".to_string())).unwrap(), fh);
    assert_eq!(fs.read_handle(fh2).unwrap(), "other");
}

#[test]
fn filtered_file_content_cannot_be_reached() {
    let mut fs = mirror(5, &[PatternRule::new_exclude("*.pdf").unwrap()]);
    assert!(fs.lookup(1, "doc1.pdf", false).is_err());
    assert!(fs.lookup(1, "file.txt", false).is_ok());
}

#[test]
fn listing_selects_what_the_rules_and_searches_admit() {
    let fs = mirror(2, &[PatternRule::new_exclude("*.pdf").unwrap()]);
    let mut full = read_as("/src/full", Some(FileKind::Directory));
    full.empty = false;
    let mut hollow = read_as("/src/hollow", Some(FileKind::Directory));
    hollow.empty = true;
    let reads = vec![
        read_as("/src/a.pdf", Some(FileKind::RegularFile)),
        full,
        unreadable(),
        hollow,
        read_as("/src/b.txt", Some(FileKind::RegularFile)),
    ];
    let shown = fs.select_shown(&reads);
    assert_eq!(shown.len(), 3);
    assert!(matches!(&shown[0], ShownEntry::Entry { path, kind: Some(FileKind::Directory) } if path == "/src/full"));
    assert!(matches!(&shown[1], ShownEntry::Unreadable));
    assert!(matches!(&shown[2], ShownEntry::Entry { path, .. } if path == "/src/b.txt"));
    assert!(shown[0].lies_in_directory());
    assert!(ShownEntry::Unreadable.lies_in_directory());
    assert!(!ShownEntry::Entry { path: "/".to_string(), kind: None }.lies_in_directory());
}
