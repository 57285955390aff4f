use vstd::prelude::*;

verus! {

/// The kind of a file, as the file system reports it.
#[derive(Clone, Copy, Debug, PartialEq, Eq, Structural)]
pub enum FileKind {
    NamedPipe,
    CharDevice,
    BlockDevice,
    Directory,
    RegularFile,
    Symlink,
    Socket,
}

/// The file-type bits of a mode: the mask and the value of each type.
struct ModeBits {
    mask: u32,
    fifo: u32,
    chr: u32,
    blk: u32,
    dir: u32,
    reg: u32,
    lnk: u32,
    sock: u32,
}

/// Reads `libc::S_IFMT`, `S_IFIFO`, `S_IFCHR`, `S_IFBLK`, `S_IFDIR`,
/// `S_IFREG`, `S_IFLNK` and `S_IFSOCK`; the contract states their values as
/// libc defines them for Linux.
#[verifier::external_body]
fn mode_bits() -> (r: ModeBits)
    ensures
        r.mask == 0o170000,
        r.fifo == 0o010000,
        r.chr == 0o020000,
        r.blk == 0o060000,
        r.dir == 0o040000,
        r.reg == 0o100000,
        r.lnk == 0o120000,
        r.sock == 0o140000,
{
    ModeBits {
        mask: libc::S_IFMT,
        fifo: libc::S_IFIFO,
        chr: libc::S_IFCHR,
        blk: libc::S_IFBLK,
        dir: libc::S_IFDIR,
        reg: libc::S_IFREG,
        lnk: libc::S_IFLNK,
        sock: libc::S_IFSOCK,
    }
}

/// The kind a mode stands for; an unknown type counts as a regular file.
pub open spec fn kind_of_mode(mode: u32) -> FileKind {
    let t = mode & 0o170000u32;
    if t == 0o100000 {
        FileKind::RegularFile
    } else if t == 0o040000 {
        FileKind::Directory
    } else if t == 0o120000 {
        FileKind::Symlink
    } else if t == 0o020000 {
        FileKind::CharDevice
    } else if t == 0o060000 {
        FileKind::BlockDevice
    } else if t == 0o010000 {
        FileKind::NamedPipe
    } else if t == 0o140000 {
        FileKind::Socket
    } else {
        FileKind::RegularFile
    }
}

/// The kind of a file depends on the file-type bits of its mode alone: the
/// permission bits, and the setuid, setgid and sticky bits, never change it;
/// a mode whose type bits are those of a directory (`S_IFDIR`) is a directory,
/// and likewise for each other type.
pub proof fn law_kind_by_type_bits(mode: u32, other: u32)
    ensures
        kind_of_mode(mode) == kind_of_mode(mode & 0o170000u32),
        mode & 0o170000u32 == other & 0o170000u32 ==> kind_of_mode(mode) == kind_of_mode(other),
        mode & 0o170000u32 == 0o040000u32 ==> kind_of_mode(mode) == FileKind::Directory,
        mode & 0o170000u32 == 0o100000u32 ==> kind_of_mode(mode) == FileKind::RegularFile,
        mode & 0o170000u32 == 0o120000u32 ==> kind_of_mode(mode) == FileKind::Symlink,
        mode & 0o170000u32 == 0o020000u32 ==> kind_of_mode(mode) == FileKind::CharDevice,
        mode & 0o170000u32 == 0o060000u32 ==> kind_of_mode(mode) == FileKind::BlockDevice,
        mode & 0o170000u32 == 0o010000u32 ==> kind_of_mode(mode) == FileKind::NamedPipe,
        mode & 0o170000u32 == 0o140000u32 ==> kind_of_mode(mode) == FileKind::Socket,
        kind_of_mode(0o040000u32) == FileKind::Directory,
        kind_of_mode(0o041777u32) == FileKind::Directory,
{
    assert((mode & 0o170000u32) & 0o170000u32 == mode & 0o170000u32) by (bit_vector);
    assert(0o040000u32 & 0o170000u32 == 0o040000u32) by (bit_vector);
    assert(0o041777u32 & 0o170000u32 == 0o040000u32) by (bit_vector);
}

/// The kind of a file with mode `mode`.
pub fn filetype(mode: u32) -> (r: FileKind)
    ensures
        r == kind_of_mode(mode),
        mode & 0o170000u32 == 0o040000u32 ==> r == FileKind::Directory,
        mode & 0o170000u32 == 0o100000u32 ==> r == FileKind::RegularFile,
        mode & 0o170000u32 == 0o120000u32 ==> r == FileKind::Symlink,
        mode & 0o170000u32 == 0o020000u32 ==> r == FileKind::CharDevice,
        mode & 0o170000u32 == 0o060000u32 ==> r == FileKind::BlockDevice,
        mode & 0o170000u32 == 0o010000u32 ==> r == FileKind::NamedPipe,
        mode & 0o170000u32 == 0o140000u32 ==> r == FileKind::Socket,
{
    let b = mode_bits();
    let t = mode & b.mask;
    if t == b.reg {
        FileKind::RegularFile
    } else if t == b.dir {
        FileKind::Directory
    } else if t == b.lnk {
        FileKind::Symlink
    } else if t == b.chr {
        FileKind::CharDevice
    } else if t == b.blk {
        FileKind::BlockDevice
    } else if t == b.fifo {
        FileKind::NamedPipe
    } else if t == b.sock {
        FileKind::Socket
    } else {
        FileKind::RegularFile
    }
}

/// The permission bits of a mode (its lower 12 bits).
pub fn permissions(mode: u32) -> (r: u16)
    ensures
        r == mode & 0o7777u32,
        r < 0o10000,
{
    let p = mode & 0o7777u32;
    assert(p < 0o10000) by (bit_vector)
        requires
            p == mode & 0o7777u32,
    ;
    p as u16
}

/// A count cut off at the largest `u32`.
pub fn cutoff(n: u64) -> (r: u32)
    ensures
        r == if n < u32::MAX { n } else { u32::MAX as u64 },
{
    if n < u32::MAX as u64 {
        n as u32
    } else {
        u32::MAX
    }
}

/// What the file system reports of a file.
pub struct FileStat {
    pub size: u64,
    pub blocks: u64,
    pub atime: i64,
    pub mtime: i64,
    pub ctime: i64,
    pub mode: u32,
    pub nlink: u64,
    pub uid: u32,
    pub gid: u32,
    pub rdev: u64,
    pub blksize: u64,
}

/// The attributes of a mirrored file. Times are seconds after the epoch.
pub struct FileAttr {
    pub ino: u64,
    pub size: u64,
    pub blocks: u64,
    pub atime: u64,
    pub mtime: u64,
    pub ctime: u64,
    pub crtime: u64,
    pub kind: FileKind,
    pub perm: u16,
    pub nlink: u32,
    pub uid: u32,
    pub gid: u32,
    pub rdev: u32,
    pub blksize: u32,
    pub flags: u32,
}

/// The attributes of the file with number `ino` and the reported `stat`: the
/// sizes, owners and times as reported (times read as unsigned seconds), the
/// kind and permissions from the mode, and the counts cut off at the largest
/// `u32`. The creation time and the flags are zero.
pub fn convert_metadata(stat: &FileStat, ino: u64) -> (r: FileAttr)
    ensures
        r.ino == ino,
        r.size == stat.size,
        r.blocks == stat.blocks,
        r.atime == stat.atime as u64,
        r.mtime == stat.mtime as u64,
        r.ctime == stat.ctime as u64,
        r.crtime == 0,
        r.kind == kind_of_mode(stat.mode),
        r.perm == stat.mode & 0o7777u32,
        r.nlink == if stat.nlink < u32::MAX { stat.nlink } else { u32::MAX as u64 },
        r.uid == stat.uid,
        r.gid == stat.gid,
        r.rdev == if stat.rdev < u32::MAX { stat.rdev } else { u32::MAX as u64 },
        r.blksize == if stat.blksize < u32::MAX { stat.blksize } else { u32::MAX as u64 },
        r.flags == 0,
{
    FileAttr {
        ino,
        size: stat.size,
        blocks: stat.blocks,
        atime: stat.atime as u64,
        mtime: stat.mtime as u64,
        ctime: stat.ctime as u64,
        crtime: 0,
        kind: filetype(stat.mode),
        perm: permissions(stat.mode),
        nlink: cutoff(stat.nlink),
        uid: stat.uid,
        gid: stat.gid,
        rdev: cutoff(stat.rdev),
        blksize: cutoff(stat.blksize),
        flags: 0,
    }
}

}
