//! Inode attributes, their stored form, and the classical permission check.
use vstd::prelude::*;

use crate::bytes::{
    bytes_words, decode_words, encode_words, lemma_bytes_words, lemma_words_bytes, words_bytes,
};

verus! {

/// The inode number of the root directory.
pub const ROOT_INODE: u64 = 1;

/// What an inode is.
#[derive(Clone, Copy, Debug, PartialEq, Eq, Structural)]
pub enum FileType {
    RegularFile,
    Directory,
    Symlink,
}

/// A point in time: seconds since the epoch, and nanoseconds within the second.
#[derive(Clone, Copy, Debug, PartialEq, Eq, Structural)]
pub struct Timestamp {
    pub secs: u64,
    pub nanos: u32,
}

/// The attributes of one inode.
#[derive(Clone, Copy, Debug, PartialEq, Eq, Structural)]
pub struct FileAttr {
    pub ino: u64,
    /// Plaintext bytes of a file; number of entries of a directory.
    pub size: u64,
    pub blocks: u64,
    pub atime: Timestamp,
    pub mtime: Timestamp,
    pub ctime: Timestamp,
    pub crtime: Timestamp,
    pub kind: FileType,
    pub perm: u16,
    pub nlink: u32,
    pub uid: u32,
    pub gid: u32,
    pub rdev: u32,
    pub blksize: u32,
    pub flags: u32,
}

/// The attributes that `setattr` is asked to change; `None` leaves one as it is.
#[derive(Clone, Copy, Debug)]
pub struct SetFileAttr {
    pub size: Option<u64>,
    pub atime: Option<Timestamp>,
    pub mtime: Option<Timestamp>,
    pub ctime: Option<Timestamp>,
    pub crtime: Option<Timestamp>,
    pub perm: Option<u16>,
    pub uid: Option<u32>,
    pub gid: Option<u32>,
    pub flags: Option<u32>,
}

/// Number of words in a stored attribute record.
pub const ATTR_WORDS: usize = 19;

/// The number that stands for a kind in stored records.
pub open spec fn kind_code(kind: FileType) -> u64 {
    match kind {
        FileType::RegularFile => 0,
        FileType::Directory => 1,
        FileType::Symlink => 2,
    }
}

/// The kind that a stored number stands for.
pub open spec fn code_kind(code: u64) -> Option<FileType> {
    if code == 0 {
        Some(FileType::RegularFile)
    } else if code == 1 {
        Some(FileType::Directory)
    } else if code == 2 {
        Some(FileType::Symlink)
    } else {
        None
    }
}

/// The words of an attribute record, in stored order.
pub open spec fn attr_words(a: FileAttr) -> Seq<u64> {
    seq![
        a.ino,
        a.size,
        a.blocks,
        a.atime.secs,
        a.atime.nanos as u64,
        a.mtime.secs,
        a.mtime.nanos as u64,
        a.ctime.secs,
        a.ctime.nanos as u64,
        a.crtime.secs,
        a.crtime.nanos as u64,
        kind_code(a.kind),
        a.perm as u64,
        a.nlink as u64,
        a.uid as u64,
        a.gid as u64,
        a.rdev as u64,
        a.blksize as u64,
        a.flags as u64,
    ]
}

/// Whether the words are those of some attribute record.
pub open spec fn words_fit_attr(ws: Seq<u64>) -> bool {
    &&& ws.len() == ATTR_WORDS
    &&& ws[4] <= u32::MAX
    &&& ws[6] <= u32::MAX
    &&& ws[8] <= u32::MAX
    &&& ws[10] <= u32::MAX
    &&& ws[11] <= 2
    &&& ws[12] <= u16::MAX
    &&& ws[13] <= u32::MAX
    &&& ws[14] <= u32::MAX
    &&& ws[15] <= u32::MAX
    &&& ws[16] <= u32::MAX
    &&& ws[17] <= u32::MAX
    &&& ws[18] <= u32::MAX
}

/// The attribute record that the words hold, if they hold one.
pub open spec fn words_attr(ws: Seq<u64>) -> Option<FileAttr> {
    if words_fit_attr(ws) {
        Some(
            FileAttr {
                ino: ws[0],
                size: ws[1],
                blocks: ws[2],
                atime: Timestamp { secs: ws[3], nanos: ws[4] as u32 },
                mtime: Timestamp { secs: ws[5], nanos: ws[6] as u32 },
                ctime: Timestamp { secs: ws[7], nanos: ws[8] as u32 },
                crtime: Timestamp { secs: ws[9], nanos: ws[10] as u32 },
                kind: code_kind(ws[11]).unwrap(),
                perm: ws[12] as u16,
                nlink: ws[13] as u32,
                uid: ws[14] as u32,
                gid: ws[15] as u32,
                rdev: ws[16] as u32,
                blksize: ws[17] as u32,
                flags: ws[18] as u32,
            },
        )
    } else {
        None
    }
}

/// The stored form of an attribute record, before encryption.
pub open spec fn attr_bytes(a: FileAttr) -> Seq<u8> {
    words_bytes(attr_words(a))
}

/// The attribute record that the bytes hold, if they hold one.
pub open spec fn bytes_attr(b: Seq<u8>) -> Option<FileAttr> {
    match bytes_words(b) {
        Some(ws) => words_attr(ws),
        None => None,
    }
}

/// Decoding a stored record gives back the attributes it was made from.
pub proof fn lemma_attr_roundtrip(a: FileAttr)
    ensures
        bytes_attr(attr_bytes(a)) == Some(a),
        attr_bytes(a).len() == 8 * ATTR_WORDS,
{
    lemma_words_bytes(attr_words(a));
}

/// Bytes that decode to attributes are the stored form of those attributes.
pub proof fn lemma_attr_bytes_unique(b: Seq<u8>)
    requires
        bytes_attr(b) is Some,
    ensures
        attr_bytes(bytes_attr(b).unwrap()) == b,
{
    lemma_bytes_words(b);
    let ws = bytes_words(b).unwrap();
    assert(attr_words(words_attr(ws).unwrap()) =~= ws);
}

fn kind_to_code(kind: FileType) -> (code: u64)
    ensures
        code == kind_code(kind),
{
    match kind {
        FileType::RegularFile => 0,
        FileType::Directory => 1,
        FileType::Symlink => 2,
    }
}

fn kind_from_code(code: u64) -> (kind: Option<FileType>)
    ensures
        kind == code_kind(code),
{
    if code == 0 {
        Some(FileType::RegularFile)
    } else if code == 1 {
        Some(FileType::Directory)
    } else if code == 2 {
        Some(FileType::Symlink)
    } else {
        None
    }
}

/// Writes an attribute record out.
pub fn encode_attr(a: &FileAttr) -> (out: Vec<u8>)
    ensures
        out@ == attr_bytes(*a),
{
    let ws: Vec<u64> = vec![
        a.ino,
        a.size,
        a.blocks,
        a.atime.secs,
        a.atime.nanos as u64,
        a.mtime.secs,
        a.mtime.nanos as u64,
        a.ctime.secs,
        a.ctime.nanos as u64,
        a.crtime.secs,
        a.crtime.nanos as u64,
        kind_to_code(a.kind),
        a.perm as u64,
        a.nlink as u64,
        a.uid as u64,
        a.gid as u64,
        a.rdev as u64,
        a.blksize as u64,
        a.flags as u64,
    ];
    assert(ws@ =~= attr_words(*a));
    encode_words(ws.as_slice())
}

/// Reads an attribute record; `None` where the bytes hold none.
pub fn decode_attr(b: &[u8]) -> (out: Option<FileAttr>)
    ensures
        out == bytes_attr(b@),
{
    let ws = match decode_words(b) {
        Some(ws) => ws,
        None => { return None; },
    };
    if ws.len() != ATTR_WORDS {
        return None;
    }
    let small: u64 = u32::MAX as u64;
    if ws[4] > small || ws[6] > small || ws[8] > small || ws[10] > small || ws[11] > 2 || ws[12]
        > u16::MAX as u64 || ws[13] > small || ws[14] > small || ws[15] > small || ws[16] > small
        || ws[17] > small || ws[18] > small {
        return None;
    }
    let kind = match kind_from_code(ws[11]) {
        Some(kind) => kind,
        None => { return None; },
    };
    Some(
        FileAttr {
            ino: ws[0],
            size: ws[1],
            blocks: ws[2],
            atime: Timestamp { secs: ws[3], nanos: ws[4] as u32 },
            mtime: Timestamp { secs: ws[5], nanos: ws[6] as u32 },
            ctime: Timestamp { secs: ws[7], nanos: ws[8] as u32 },
            crtime: Timestamp { secs: ws[9], nanos: ws[10] as u32 },
            kind,
            perm: ws[12] as u16,
            nlink: ws[13] as u32,
            uid: ws[14] as u32,
            gid: ws[15] as u32,
            rdev: ws[16] as u32,
            blksize: ws[17] as u32,
            flags: ws[18] as u32,
        },
    )
}

/// Permission bit: read.
pub const ACCESS_READ: u16 = 4;

/// Permission bit: write.
pub const ACCESS_WRITE: u16 = 2;

/// Permission bit: execute, or search for a directory.
pub const ACCESS_EXECUTE: u16 = 1;

/// The three permission bits of `perm` that apply to the caller: the owner's
/// where the caller owns the inode, else the group's where the caller is in
/// its group, else those of all others.
pub open spec fn class_bits(attr: FileAttr, uid: u32, gid: u32) -> u16 {
    if uid == attr.uid {
        (attr.perm >> 6) & 7
    } else if gid == attr.gid {
        (attr.perm >> 3) & 7
    } else {
        attr.perm & 7
    }
}

/// The classical Unix rule: the superuser may read and write anything, and
/// execute what anyone may execute; every other caller needs each requested
/// bit among those of its class.
pub open spec fn access_allowed(attr: FileAttr, uid: u32, gid: u32, mask: u16) -> bool {
    if uid == 0 {
        mask & ACCESS_EXECUTE == 0 || attr.perm & 0o111 != 0 || attr.kind == FileType::Directory
    } else {
        class_bits(attr, uid, gid) & (mask & 7) == mask & 7
    }
}

/// Decides whether the caller `uid`/`gid` may access the inode in the ways
/// that `mask` names.
pub fn check_access(attr: &FileAttr, uid: u32, gid: u32, mask: u16) -> (allowed: bool)
    ensures
        allowed == access_allowed(*attr, uid, gid, mask),
{
    if uid == 0 {
        let dir = match attr.kind {
            FileType::Directory => true,
            _ => false,
        };
        mask & ACCESS_EXECUTE == 0 || attr.perm & 0o111 != 0 || dir
    } else {
        let bits: u16 = if uid == attr.uid {
            (attr.perm >> 6) & 7
        } else if gid == attr.gid {
            (attr.perm >> 3) & 7
        } else {
            attr.perm & 7
        };
        bits & (mask & 7) == mask & 7
    }
}

/// What a caller wants to do with an inode.
#[derive(Clone, Copy, Debug, PartialEq, Eq, Structural)]
pub enum Access {
    /// Look a name up in a directory.
    Search,
    /// List a directory.
    List,
    /// Add, remove or rename an entry of a directory.
    Change,
    /// Read a file.
    Read,
    /// Write a file.
    Write,
    /// Read and write a file.
    ReadWrite,
}

/// The permission bits that a caller needs for what it wants to do: a
/// directory is searched with execute, listed with read, and changed with
/// write and execute.
pub open spec fn access_mask(access: Access) -> u16 {
    match access {
        Access::Search => ACCESS_EXECUTE,
        Access::List => ACCESS_READ,
        Access::Change => 3,
        Access::Read => ACCESS_READ,
        Access::Write => ACCESS_WRITE,
        Access::ReadWrite => 6,
    }
}

/// Gives the permission bits that a caller needs for what it wants to do.
pub fn mask_for(access: Access) -> (mask: u16)
    ensures
        mask == access_mask(access),
{
    match access {
        Access::Search => ACCESS_EXECUTE,
        Access::List => ACCESS_READ,
        Access::Change => 3,
        Access::Read => ACCESS_READ,
        Access::Write => ACCESS_WRITE,
        Access::ReadWrite => 6,
    }
}

/// Whether a caller may change the attributes of an inode: its owner may,
/// and the superuser.
pub open spec fn may_set(attr: FileAttr, uid: u32) -> bool {
    uid == 0 || uid == attr.uid
}

/// Decides whether a caller may change the attributes of an inode.
pub fn check_owner(attr: &FileAttr, uid: u32) -> (allowed: bool)
    ensures
        allowed == may_set(*attr, uid),
{
    uid == 0 || uid == attr.uid
}

/// The mode bits that an inode is created with: the permission and sticky
/// bits always, set-user-id and set-group-id only with `suid_support`.
pub open spec fn creation_mode(mode: u16, suid_support: bool) -> u16 {
    if suid_support {
        mode & 0o7777
    } else {
        mode & 0o1777
    }
}

/// Computes the mode bits that an inode is created with.
pub fn mode_for_creation(mode: u16, suid_support: bool) -> (perm: u16)
    ensures
        perm == creation_mode(mode, suid_support),
{
    if suid_support {
        mode & 0o7777
    } else {
        mode & 0o1777
    }
}

/// The attributes after the changes that `setattr` was asked for, at time
/// `now`: the change time moves with every call, and the modification time
/// with a change of size, unless the call names them itself.
pub open spec fn attr_set(a: FileAttr, set: SetFileAttr, now: Timestamp) -> FileAttr {
    FileAttr {
        ino: a.ino,
        size: match set.size {
            Some(size) => size,
            None => a.size,
        },
        blocks: a.blocks,
        atime: match set.atime {
            Some(t) => t,
            None => a.atime,
        },
        mtime: match set.mtime {
            Some(t) => t,
            None => if set.size is Some {
                now
            } else {
                a.mtime
            },
        },
        ctime: match set.ctime {
            Some(t) => t,
            None => now,
        },
        crtime: match set.crtime {
            Some(t) => t,
            None => a.crtime,
        },
        kind: a.kind,
        perm: match set.perm {
            Some(perm) => perm & 0o7777,
            None => a.perm,
        },
        nlink: a.nlink,
        uid: match set.uid {
            Some(uid) => uid,
            None => a.uid,
        },
        gid: match set.gid {
            Some(gid) => gid,
            None => a.gid,
        },
        rdev: a.rdev,
        blksize: a.blksize,
        flags: match set.flags {
            Some(flags) => flags,
            None => a.flags,
        },
    }
}

/// Applies the changes that `setattr` was asked for.
pub fn apply_set(a: &FileAttr, set: &SetFileAttr, now: Timestamp) -> (out: FileAttr)
    ensures
        out == attr_set(*a, *set, now),
{
    FileAttr {
        ino: a.ino,
        size: match set.size {
            Some(size) => size,
            None => a.size,
        },
        blocks: a.blocks,
        atime: match set.atime {
            Some(t) => t,
            None => a.atime,
        },
        mtime: match set.mtime {
            Some(t) => t,
            None => if set.size.is_some() {
                now
            } else {
                a.mtime
            },
        },
        ctime: match set.ctime {
            Some(t) => t,
            None => now,
        },
        crtime: match set.crtime {
            Some(t) => t,
            None => a.crtime,
        },
        kind: a.kind,
        perm: match set.perm {
            Some(perm) => perm & 0o7777,
            None => a.perm,
        },
        nlink: a.nlink,
        uid: match set.uid {
            Some(uid) => uid,
            None => a.uid,
        },
        gid: match set.gid {
            Some(gid) => gid,
            None => a.gid,
        },
        rdev: a.rdev,
        blksize: a.blksize,
        flags: match set.flags {
            Some(flags) => flags,
            None => a.flags,
        },
    }
}

/// What a caller asks of the file system, with the inodes that the
/// request names.
#[derive(Clone, Copy, Debug, PartialEq, Eq, Structural)]
pub enum Action {
    Lookup { parent: u64 },
    /// Making a file or a directory in `parent`.
    Make { parent: u64 },
    /// Removing a file or a directory from `parent`.
    Remove { parent: u64 },
    Rename { parent: u64, new_parent: u64 },
    Open { ino: u64, read: bool, write: bool },
    List { ino: u64 },
    SetAttr { ino: u64 },
}

/// The access that opening a file for reading, writing or both needs; one
/// that asks for neither is held to read.
pub open spec fn access_for(read: bool, write: bool) -> Access {
    if write {
        if read {
            Access::ReadWrite
        } else {
            Access::Write
        }
    } else {
        Access::Read
    }
}

/// Gives the access that opening a file needs.
pub fn access_to_open(read: bool, write: bool) -> (access: Access)
    ensures
        access == access_for(read, write),
{
    if write {
        if read {
            Access::ReadWrite
        } else {
            Access::Write
        }
    } else {
        Access::Read
    }
}

/// What the access mode in the flags of an open request asks for: reading
/// with mode 0 or 2, writing with mode 1 or 2.
pub open spec fn open_mode(flags: u32) -> (bool, bool) {
    (flags & 3 == 0 || flags & 3 == 2, flags & 3 == 1 || flags & 3 == 2)
}

/// Reads the access mode out of the flags of an open request.
pub fn mode_of_flags(flags: u32) -> (mode: (bool, bool))
    ensures
        mode == open_mode(flags),
{
    let mode = flags & 3;
    (mode == 0 || mode == 2, mode == 1 || mode == 2)
}

/// The change that gives an inode to an owner and a group.
pub open spec fn owner_set(uid: u32, gid: u32) -> SetFileAttr {
    SetFileAttr {
        size: None,
        atime: None,
        mtime: None,
        ctime: None,
        crtime: None,
        perm: None,
        uid: Some(uid),
        gid: Some(gid),
        flags: None,
    }
}

} // verus!
