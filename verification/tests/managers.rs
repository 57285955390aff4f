use filterfs::fhman::FhManager;
use filterfs::inoman::INodeManager;
use filterfs::utils::{convert_metadata, cutoff, filetype, permissions, FileKind, FileStat};

#[test]
fn inode_numbers_follow_parents() {
    let mut m = INodeManager::new("/src");
    assert_eq!(m.path(1).unwrap(), "/src");
    assert_eq!(m.parent(1), Some(1));
    assert!(m.has_room("/src/a/b"));
    // the parent gets its number first
    let b = m.ino("/src/a/b");
    assert_eq!(b, 3);
    assert_eq!(m.ino("/src/a"), 2);
    assert_eq!(m.parent(b), Some(2));
    assert_eq!(m.path(b).unwrap(), "/src/a/b");
    assert_eq!(m.ino("/src/a/b"), 3);
    assert_eq!(m.next_ino(), 4);
    let n = m.inode(b).unwrap();
    assert_eq!(n.path, "/src/a/b");
    assert!(m.inode(9).is_none());
    assert!(m.path(9).is_none());
    assert!(m.parent(9).is_none());
    // a path with no parent that is not known stands for the root
    assert_eq!(m.ino("/"), 1);
    assert_eq!(m.next_ino(), 4);
}

#[test]
fn inode_numbers_go_by_components() {
    let mut m = INodeManager::new("/src/");
    assert_eq!(m.ino("/src"), 1);
    let a = m.ino("/src/a");
    assert_eq!(a, 2);
    assert_eq!(m.parent(a), Some(1));
    assert_eq!(m.ino("/src//a/"), 2);
    assert_eq!(m.ino("/src/./a"), 2);
    assert_eq!(m.next_ino(), 3);
    assert_eq!(m.path(1).unwrap(), "/src/");
    assert_eq!(m.path(a).unwrap(), "/src/a");
}

#[test]
fn file_handles_are_kept_and_reused() {
    let mut m: FhManager<u32> = FhManager::new();
    assert!(m.can_open());
    let a = m.open(Some(10)).unwrap();
    let b = m.open(Some(20)).unwrap();
    assert_eq!((a, b), (0, 1));
    assert_eq!(m.handle(a).unwrap().handle, 10);
    assert_eq!(m.handle(b).unwrap().handle, 20);
    m.release(a);
    assert!(m.handle(a).is_none());
    assert_eq!(m.open(Some(30)), Some(a));
    assert_eq!(m.handle(a).unwrap().handle, 30);
    assert_eq!(m.open(None), None);
    assert_eq!(m.open(Some(40)), Some(3));
    let d: FhManager<u32> = FhManager::default();
    assert!(d.handle(0).is_none());
}

#[test]
fn file_kinds_from_modes() {
    assert_eq!(filetype(0o100644), FileKind::RegularFile);
    assert_eq!(filetype(0o040755), FileKind::Directory);
    assert_eq!(filetype(0o120777), FileKind::Symlink);
    assert_eq!(filetype(0o020620), FileKind::CharDevice);
    assert_eq!(filetype(0o060660), FileKind::BlockDevice);
    assert_eq!(filetype(0o010644), FileKind::NamedPipe);
    assert_eq!(filetype(0o140755), FileKind::Socket);
    assert_eq!(filetype(0o000644), FileKind::RegularFile);
}

#[test]
fn permissions_and_cutoff() {
    assert_eq!(permissions(0o104755), 0o4755);
    assert_eq!(permissions(0o040700), 0o700);
    assert_eq!(cutoff(7), 7);
    assert_eq!(cutoff(u32::MAX as u64 + 5), u32::MAX);
    assert_eq!(cutoff(u32::MAX as u64), u32::MAX);
}

#[test]
fn metadata_converts() {
    let stat = FileStat {
        size: 12,
        blocks: 8,
        atime: 100,
        mtime: 200,
        ctime: -1,
        mode: 0o100640,
        nlink: 1 << 40,
        uid: 1000,
        gid: 100,
        rdev: 3,
        blksize: 4096,
    };
    let a = convert_metadata(&stat, 42);
    assert_eq!(a.ino, 42);
    assert_eq!((a.size, a.blocks), (12, 8));
    assert_eq!((a.atime, a.mtime), (100, 200));
    assert_eq!(a.ctime, u64::MAX);
    assert_eq!(a.crtime, 0);
    assert_eq!(a.kind, FileKind::RegularFile);
    assert_eq!(a.perm, 0o640);
    assert_eq!(a.nlink, u32::MAX);
    assert_eq!((a.uid, a.gid, a.rdev, a.blksize, a.flags), (1000, 100, 3, 4096, 0));
}
